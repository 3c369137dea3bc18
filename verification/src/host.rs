//! Hosts of target addresses.
use crate::config::duration_serde;
use crate::text::{self, chars_of, text_between};
use vstd::prelude::*;
use vstd::string::*;

verus! {

/// What stands before the last colon of a text.
pub open spec fn before_last_colon(value: Seq<char>) -> Option<Seq<char>>
    decreases value.len(),
{
    if value.len() == 0 {
        None
    } else if value.last() == ':' {
        Some(value.drop_last())
    } else {
        before_last_colon(value.drop_last())
    }
}

/// Whether a character is a square bracket.
pub open spec fn is_bracket(c: char) -> bool {
    c == '[' || c == ']'
}

/// A text without the square brackets around it.
pub open spec fn without_brackets(value: Seq<char>) -> Seq<char>
    decreases value.len(),
{
    if value.len() > 0 && is_bracket(value[0]) {
        without_brackets(value.drop_first())
    } else if value.len() > 0 && is_bracket(value.last()) {
        without_brackets(value.drop_last())
    } else {
        value
    }
}

/// The host of a server address: what stands before its last colon, without square brackets, or
/// the whole address where it has no colon.
pub open spec fn host_of(server: Seq<char>) -> Seq<char> {
    match before_last_colon(server) {
        Some(host) => without_brackets(host),
        None => server,
    }
}

/// The host of a server address.
pub fn host_from_server(server: &str) -> (host: String)
    ensures
        host@ == host_of(server@),
{
    let chars = chars_of(server);
    let mut end: usize = chars.len();
    proof {
        assert(chars@.take(end as int) =~= chars@);
    }
    while end > 0 && chars[end - 1] != ':'
        invariant
            end <= chars.len(),
            before_last_colon(chars@.take(end as int)) == before_last_colon(chars@),
        ensures
            end <= chars.len(),
            before_last_colon(chars@.take(end as int)) == before_last_colon(chars@),
            end > 0 ==> chars@[end - 1] == ':',
        decreases end,
    {
        proof {
            assert(chars@.take(end as int).drop_last() =~= chars@.take(end - 1));
        }
        end = end - 1;
    }
    if end == 0 {
        return server.to_owned();
    }
    proof {
        assert(chars@.take(end as int).drop_last() =~= chars@.take(end - 1));
        assert(chars@.take(end - 1) =~= chars@.subrange(0, end - 1));
    }
    end = end - 1;
    let ghost host = chars@.subrange(0, end as int);
    let mut start: usize = 0;
    while start < end && (chars[start] == '[' || chars[start] == ']')
        invariant
            start <= end <= chars.len(),
            without_brackets(chars@.subrange(start as int, end as int)) == without_brackets(host),
        ensures
            start <= end <= chars.len(),
            without_brackets(chars@.subrange(start as int, end as int)) == without_brackets(host),
            start < end ==> !is_bracket(chars@[start as int]),
        decreases end - start,
    {
        proof {
            let body = chars@.subrange(start as int, end as int);
            assert(body.drop_first() =~= chars@.subrange(start + 1, end as int));
        }
        start = start + 1;
    }
    while start < end && (chars[end - 1] == '[' || chars[end - 1] == ']')
        invariant
            start <= end <= chars.len(),
            without_brackets(chars@.subrange(start as int, end as int)) == without_brackets(host),
            start < end ==> !is_bracket(chars@[start as int]),
        ensures
            start <= end <= chars.len(),
            without_brackets(chars@.subrange(start as int, end as int)) == without_brackets(host),
            start < end ==> !is_bracket(chars@[start as int]) && !is_bracket(chars@[end - 1]),
        decreases end - start,
    {
        proof {
            let body = chars@.subrange(start as int, end as int);
            assert(body.drop_last() =~= chars@.subrange(start as int, end - 1));
        }
        end = end - 1;
    }
    text_between(&chars, start, end)
}

/// The parts of a text between the occurrences of a separator.
pub open spec fn parts_of(value: Seq<char>, separator: char) -> Seq<Seq<char>>
    decreases value.len(),
{
    if value.len() == 0 {
        seq![Seq::empty()]
    } else {
        let before = parts_of(value.drop_last(), separator);
        if value.last() == separator {
            before.push(Seq::empty())
        } else {
            before.drop_last().push(before.last().push(value.last()))
        }
    }
}

/// The characters of some parts.
pub open spec fn views(parts: Seq<Vec<char>>) -> Seq<Seq<char>> {
    Seq::new(parts.len(), |i: int| parts[i]@)
}

/// The parts of a text between the occurrences of a separator.
fn split_parts(chars: &Vec<char>, separator: char) -> (parts: Vec<Vec<char>>)
    ensures
        views(parts@) == parts_of(chars@, separator),
        parts@.len() > 0,
{
    let mut parts: Vec<Vec<char>> = Vec::new();
    let mut part: Vec<char> = Vec::new();
    let mut i: usize = 0;
    proof {
        assert(views(parts@).push(part@) =~= seq![Seq::<char>::empty()]);
    }
    while i < chars.len()
        invariant
            i <= chars.len(),
            views(parts@).push(part@) == parts_of(chars@.take(i as int), separator),
        decreases chars.len() - i,
    {
        let ghost before = parts_of(chars@.take(i as int), separator);
        let ghost old_parts = parts@;
        let ghost old_part = part@;
        proof {
            assert(chars@.take(i + 1).drop_last() =~= chars@.take(i as int));
            assert(before.drop_last() =~= views(old_parts));
            assert(before.last() == old_part);
        }
        let c = chars[i];
        if c == separator {
            let mut done: Vec<char> = Vec::new();
            core::mem::swap(&mut done, &mut part);
            parts.push(done);
            proof {
                assert(views(parts@) =~= views(old_parts).push(old_part));
                assert(views(parts@).push(part@) =~= before.push(Seq::empty()));
            }
        } else {
            part.push(c);
        }
        i = i + 1;
    }
    proof {
        assert(chars@.take(chars@.len() as int) =~= chars@);
    }
    let ghost old_parts = parts@;
    let ghost last = part@;
    parts.push(part);
    assert(views(parts@) =~= views(old_parts).push(last));
    parts
}

/// Whether a text is a number from 0 to 255 in decimal digits, without leading zeros.
pub open spec fn is_octet(part: Seq<char>) -> bool {
    &&& 1 <= part.len() <= 3
    &&& forall|i: int| 0 <= i < part.len() ==> duration_serde::is_digit(#[trigger] part[i])
    &&& part.len() > 1 ==> part[0] != '0'
    &&& duration_serde::digits_value(part) <= 255
}

/// Whether a text is an IPv4 loopback address.
pub open spec fn is_loopback_v4(host: Seq<char>) -> bool {
    let parts = parts_of(host, '.');
    &&& parts.len() == 4
    &&& parts[0] == seq!['1', '2', '7']
    &&& is_octet(parts[1]) && is_octet(parts[2]) && is_octet(parts[3])
}

/// Whether a text is a group of an IPv6 address with the value 0.
pub open spec fn is_zero_group(part: Seq<char>) -> bool {
    &&& 1 <= part.len() <= 4
    &&& forall|i: int| 0 <= i < part.len() ==> #[trigger] part[i] == '0'
}

/// Whether a text is a group of an IPv6 address with the value 1.
pub open spec fn is_one_group(part: Seq<char>) -> bool {
    &&& 1 <= part.len() <= 4
    &&& part.last() == '1'
    &&& forall|i: int| 0 <= i < part.len() - 1 ==> #[trigger] part[i] == '0'
}

/// Whether some parts are all groups with the value 0.
pub open spec fn all_zero_groups(parts: Seq<Seq<char>>) -> bool {
    forall|i: int| 0 <= i < parts.len() ==> is_zero_group(#[trigger] parts[i])
}

/// Whether the parts before the last one make up the zeros of `::1`, the last one counting for
/// `width` of eight groups.
///
/// Either all groups are written out, or one run of them is left out between two colons.
pub open spec fn fills_with_zeros(parts: Seq<Seq<char>>, width: nat) -> bool {
    ||| all_zero_groups(parts) && parts.len() + width == 8
    ||| {
        &&& parts.len() >= 2
        &&& parts[0].len() == 0 && parts[1].len() == 0
        &&& all_zero_groups(parts.skip(2))
        &&& parts.len() - 2 + width <= 7
    }
    ||| {
        &&& parts.len() - 1 + width <= 7
        &&& exists|gap: int| #[trigger] leaves_out_at(parts, gap)
    }
}

/// Whether the run that is left out stands behind the first part, at `gap`.
pub open spec fn leaves_out_at(parts: Seq<Seq<char>>, gap: int) -> bool {
    &&& 1 <= gap < parts.len()
    &&& parts[gap].len() == 0
    &&& all_zero_groups(parts.take(gap))
    &&& all_zero_groups(parts.skip(gap + 1))
}

/// Whether a text is the IPv6 loopback address.
pub open spec fn is_loopback_v6(host: Seq<char>) -> bool {
    let parts = parts_of(host, ':');
    ||| is_one_group(parts.last()) && fills_with_zeros(parts.drop_last(), 1)
    ||| parts.last() == seq!['0', '.', '0', '.', '0', '.', '1'] && fills_with_zeros(
        parts.drop_last(),
        2,
    )
}

/// Whether a text names this machine: `localhost` or a loopback address.
pub open spec fn is_loopback_host(host: Seq<char>) -> bool {
    host == "localhost"@ || is_loopback_v4(host) || is_loopback_v6(host)
}

/// Whether some characters are those of a text.
fn is_text(part: &Vec<char>, text: &str) -> (result: bool)
    ensures
        result == (part@ == text@),
{
    let chars = chars_of(text);
    if part.len() != chars.len() {
        return false;
    }
    let mut i: usize = 0;
    while i < part.len()
        invariant
            i <= part.len(),
            part.len() == chars.len(),
            chars@ == text@,
            forall|j: int| 0 <= j < i ==> part@[j] == chars@[j],
        decreases part.len() - i,
    {
        if part[i] != chars[i] {
            return false;
        }
        i = i + 1;
    }
    assert(part@ =~= chars@);
    true
}

/// Whether some characters are a number from 0 to 255.
fn octet(part: &Vec<char>) -> (result: bool)
    ensures
        result == is_octet(part@),
{
    if part.len() == 0 || part.len() > 3 {
        return false;
    }
    if part.len() > 1 && part[0] == '0' {
        return false;
    }
    let mut value: u32 = 0;
    let mut i: usize = 0;
    proof {
        assert(part@.take(0) =~= Seq::<char>::empty());
    }
    while i < part.len()
        invariant
            i <= part.len() <= 3,
            forall|j: int| 0 <= j < i ==> duration_serde::is_digit(#[trigger] part@[j]),
            value == duration_serde::digits_value(part@.take(i as int)),
            i == 0 ==> value == 0,
            i == 1 ==> value <= 9,
            i == 2 ==> value <= 99,
            value <= 999,
        decreases part.len() - i,
    {
        let c = part[i];
        if c < '0' || c > '9' {
            assert(!duration_serde::is_digit(part@[i as int]));
            return false;
        }
        proof {
            assert(part@.take(i + 1).drop_last() =~= part@.take(i as int));
        }
        value = value * 10 + (c as u32 - 48);
        i = i + 1;
    }
    assert(part@.take(part@.len() as int) =~= part@);
    value <= 255
}

/// Whether some characters are a group with the value 0.
fn zero_group(part: &Vec<char>) -> (result: bool)
    ensures
        result == is_zero_group(part@),
{
    if part.len() == 0 || part.len() > 4 {
        return false;
    }
    let mut i: usize = 0;
    while i < part.len()
        invariant
            i <= part.len(),
            forall|j: int| 0 <= j < i ==> #[trigger] part@[j] == '0',
        decreases part.len() - i,
    {
        if part[i] != '0' {
            return false;
        }
        i = i + 1;
    }
    true
}

/// Whether some characters are a group with the value 1.
fn one_group(part: &Vec<char>) -> (result: bool)
    ensures
        result == is_one_group(part@),
{
    if part.len() == 0 || part.len() > 4 || part[part.len() - 1] != '1' {
        return false;
    }
    let mut i: usize = 0;
    while i < part.len() - 1
        invariant
            0 < part.len(),
            i <= part.len() - 1,
            forall|j: int| 0 <= j < i ==> #[trigger] part@[j] == '0',
        decreases part.len() - i,
    {
        if part[i] != '0' {
            return false;
        }
        i = i + 1;
    }
    true
}

/// Whether the parts from one position up to another are all groups with the value 0.
fn zero_groups(parts: &Vec<Vec<char>>, start: usize, end: usize) -> (result: bool)
    requires
        start <= end <= parts.len(),
    ensures
        result == all_zero_groups(views(parts@).subrange(start as int, end as int)),
{
    let ghost range = views(parts@).subrange(start as int, end as int);
    let mut i = start;
    while i < end
        invariant
            start <= i <= end <= parts.len(),
            range == views(parts@).subrange(start as int, end as int),
            forall|j: int| 0 <= j < i - start ==> is_zero_group(#[trigger] range[j]),
        decreases end - i,
    {
        assert(range[i - start] == parts@[i as int]@);
        if !zero_group(&parts[i]) {
            return false;
        }
        i = i + 1;
    }
    true
}

/// Whether all parts but the last make up the zeros of `::1`.
fn zeros_before_last(parts: &Vec<Vec<char>>, width: usize) -> (result: bool)
    requires
        parts.len() > 0,
        1 <= width <= 2,
    ensures
        result == fills_with_zeros(views(parts@).drop_last(), width as nat),
{
    let count = parts.len() - 1;
    let ghost body = views(parts@).drop_last();
    if count > 8 {
        return false;
    }
    if count + width == 8 {
        if zero_groups(parts, 0, count) {
            assert(views(parts@).subrange(0, count as int) =~= body);
            return true;
        }
    }
    assert(views(parts@).subrange(0, count as int) =~= body);
    if count >= 2 && parts[0].len() == 0 && parts[1].len() == 0 && count - 2 + width <= 7 {
        if zero_groups(parts, 2, count) {
            assert(views(parts@).subrange(2, count as int) =~= body.skip(2));
            return true;
        }
        assert(views(parts@).subrange(2, count as int) =~= body.skip(2));
    }
    if count == 0 || count - 1 + width > 7 {
        assert(!(body.len() - 1 + width <= 7 && exists|gap: int| #[trigger]
            leaves_out_at(body, gap)));
        return false;
    }
    let mut gap: usize = 1;
    while gap < count
        invariant
            count == parts.len() - 1,
            1 <= gap,
            gap <= count || count == 0,
            body == views(parts@).drop_last(),
            body.len() - 1 + width <= 7,
            forall|k: int| 1 <= k < gap ==> !#[trigger] leaves_out_at(body, k),
        decreases count - gap,
    {
        if parts[gap].len() == 0 && zero_groups(parts, 0, gap) && zero_groups(parts, gap + 1, count) {
            assert(views(parts@).subrange(0, gap as int) =~= body.take(gap as int));
            assert(views(parts@).subrange(gap + 1, count as int) =~= body.skip(gap + 1));
            assert(leaves_out_at(body, gap as int));
            return true;
        }
        assert(views(parts@).subrange(0, gap as int) =~= body.take(gap as int));
        assert(views(parts@).subrange(gap + 1, count as int) =~= body.skip(gap + 1));
        assert(!leaves_out_at(body, gap as int));
        gap = gap + 1;
    }
    false
}

/// Whether a host is this machine.
pub fn is_loopback(host: &str) -> (result: bool)
    ensures
        result == is_loopback_host(host@),
{
    let chars = chars_of(host);
    if is_text(&chars, "localhost") {
        return true;
    }
    let octets = split_parts(&chars, '.');
    if octets.len() == 4 && is_text(&octets[0], "127") && octet(&octets[1]) && octet(&octets[2])
        && octet(&octets[3]) {
        proof {
            reveal_strlit("127");
            assert("127"@ =~= seq!['1', '2', '7']);
            let parts = parts_of(host@, '.');
            assert(parts[0] == octets@[0]@ && parts[1] == octets@[1]@ && parts[2] == octets@[2]@
                && parts[3] == octets@[3]@);
        }
        return true;
    }
    proof {
        reveal_strlit("127");
        assert("127"@ =~= seq!['1', '2', '7']);
        let parts = parts_of(host@, '.');
        if parts.len() == 4 {
            assert(parts[0] == octets@[0]@ && parts[1] == octets@[1]@ && parts[2] == octets@[2]@
                && parts[3] == octets@[3]@);
        }
    }
    let groups = split_parts(&chars, ':');
    let last = groups.len() - 1;
    proof {
        reveal_strlit("0.0.0.1");
        assert("0.0.0.1"@ =~= seq!['0', '.', '0', '.', '0', '.', '1']);
        assert(parts_of(host@, ':').last() == groups@[last as int]@);
    }
    if one_group(&groups[last]) && zeros_before_last(&groups, 1) {
        return true;
    }
    is_text(&groups[last], "0.0.0.1") && zeros_before_last(&groups, 2)
}

/// The host of a server is what stands before its port, without brackets: a name or an address of
/// version 4 as it is, one of version 6 without the brackets around it. A server without a port is
/// the host itself.
pub proof fn law_hosts_stand_before_ports(host: Seq<char>, port: Seq<char>)
    requires
        !port.contains(':'),
    ensures
        host.len() > 0 && !is_bracket(host[0]) && !is_bracket(host.last()) ==> {
            &&& host_of(host + seq![':'] + port) == host
            &&& host_of(seq!['['] + host + seq![']', ':'] + port) == host
        },
        !host.contains(':') ==> host_of(host) == host,
{
    lemma_before_port(host, port);
    let inner = seq!['['] + host + seq![']'];
    lemma_before_port(inner, port);
    assert(inner + seq![':'] + port =~= seq!['['] + host + seq![']', ':'] + port);
    if !host.contains(':') {
        lemma_no_colon(host);
    }
    if host.len() > 0 && !is_bracket(host[0]) && !is_bracket(host.last()) {
        assert(without_brackets(host) == host);
        let rest = inner.drop_first();
        assert(inner[0] == '[');
        assert(rest =~= host + seq![']']);
        assert(rest[0] == host[0]);
        assert(rest.last() == ']');
        assert(rest.drop_last() =~= host);
        assert(without_brackets(rest) == without_brackets(host));
        assert(without_brackets(inner) == without_brackets(rest));
    }
}

/// What stands before the last colon, where the colon is known.
proof fn lemma_before_port(host: Seq<char>, port: Seq<char>)
    requires
        !port.contains(':'),
    ensures
        before_last_colon(host + seq![':'] + port) == Some(host),
    decreases port.len(),
{
    let all = host + seq![':'] + port;
    if port.len() == 0 {
        assert(all.last() == ':');
        assert(all.drop_last() =~= host);
    } else {
        let rest = port.drop_last();
        assert(port.contains(port[port.len() - 1]));
        assert(all.last() == port.last());
        assert(all.drop_last() =~= host + seq![':'] + rest);
        assert forall|k: int| 0 <= k < rest.len() implies rest[k] != ':' by {
            assert(port.contains(port[k]));
        }
        lemma_before_port(host, rest);
    }
}

/// Without a colon nothing stands before one.
proof fn lemma_no_colon(value: Seq<char>)
    requires
        !value.contains(':'),
    ensures
        before_last_colon(value) is None,
    decreases value.len(),
{
    if value.len() > 0 {
        assert(value.contains(value[value.len() - 1]));
        let rest = value.drop_last();
        assert forall|k: int| 0 <= k < rest.len() implies rest[k] != ':' by {
            assert(value.contains(value[k]));
        }
        lemma_no_colon(rest);
    }
}

/// The parts of a text are as many as its separators and one, and none of its characters but
/// separators is in no part.
proof fn lemma_parts(value: Seq<char>, separator: char)
    ensures
        parts_of(value, separator).len() > 0,
        forall|k: int|
            0 <= k < value.len() ==> #[trigger] value[k] == separator || exists|i: int|
                0 <= i < parts_of(value, separator).len() && #[trigger] parts_of(
                    value,
                    separator,
                )[i].contains(value[k]),
    decreases value.len(),
{
    if value.len() > 0 {
        let rest = value.drop_last();
        let before = parts_of(rest, separator);
        let all = parts_of(value, separator);
        lemma_parts(rest, separator);
        assert forall|k: int| 0 <= k < value.len() implies #[trigger] value[k] == separator
            || exists|i: int| 0 <= i < all.len() && #[trigger] all[i].contains(value[k]) by {
            if value[k] != separator {
                if k == value.len() - 1 {
                    let last = all[all.len() - 1];
                    assert(last == before.last().push(value.last()));
                    assert(last[last.len() - 1] == value[k]);
                    assert(all[all.len() - 1].contains(value[k]));
                } else {
                    assert(rest[k] == value[k]);
                    let i = choose|i: int|
                        0 <= i < before.len() && #[trigger] before[i].contains(rest[k]);
                    let c = value[k];
                    if value.last() == separator || i < before.len() - 1 {
                        assert(all[i] == before[i]);
                        assert(all[i].contains(c));
                    } else {
                        let j = choose|j: int| 0 <= j < before[i].len() && before[i][j] == c;
                        assert(all[i] == before[i].push(value.last()));
                        assert(all[i][j] == c);
                        assert(all[i].contains(c));
                    }
                }
            }
        }
    }
}

/// A first part of a text stands at its start, with the separator behind it where there are more.
proof fn lemma_first_part(value: Seq<char>, separator: char)
    ensures
        ({
            let parts = parts_of(value, separator);
            let first = parts[0];
            &&& parts.len() > 0
            &&& first.len() <= value.len()
            &&& value.take(first.len() as int) == first
            &&& parts.len() == 1 ==> first == value
            &&& parts.len() > 1 ==> first.len() < value.len() && value[first.len() as int]
                == separator
        }),
    decreases value.len(),
{
    if value.len() > 0 {
        let rest = value.drop_last();
        let before = parts_of(rest, separator);
        let all = parts_of(value, separator);
        lemma_first_part(rest, separator);
        if value.last() == separator {
            assert(all[0] == before[0]);
            assert(value.take(before[0].len() as int) =~= rest.take(before[0].len() as int));
        } else if before.len() == 1 {
            assert(all[0] == before[0].push(value.last()));
            assert(all[0] =~= value);
            assert(value.take(value.len() as int) =~= value);
        } else {
            assert(all[0] == before[0]);
            assert(value.take(before[0].len() as int) =~= rest.take(before[0].len() as int));
        }
    } else {
        assert(value.take(0) =~= Seq::<char>::empty());
        assert(value =~= Seq::<char>::empty());
    }
}

/// Only names of this machine are taken for it: `localhost`, an address of version 4 that starts with
/// 127, or one of version 6 that is written with zeros and ones.
pub proof fn law_loopback_is_this_machine(host: Seq<char>)
    requires
        is_loopback_host(host),
    ensures
        ({
            ||| host == "localhost"@
            ||| host.len() >= 7 && host.take(4) == seq!['1', '2', '7', '.'] && forall|k: int|
                0 <= k < host.len() ==> #[trigger] host[k] == '.' || '0' <= host[k] <= '9'
            ||| host.len() > 0 && forall|k: int|
                0 <= k < host.len() ==> #[trigger] host[k] == ':' || host[k] == '0' || host[k]
                    == '1' || host[k] == '.'
        }),
{
    if is_loopback_v4(host) {
        let parts = parts_of(host, '.');
        lemma_first_part(host, '.');
        lemma_parts(host, '.');
        assert(parts[0] == seq!['1', '2', '7']);
        assert(host[0] == host.take(3)[0] && host[1] == host.take(3)[1] && host[2] == host.take(
            3,
        )[2]);
        assert(host.take(4) =~= seq!['1', '2', '7', '.']);
        assert forall|k: int| 0 <= k < host.len() implies #[trigger] host[k] == '.' || '0' <= host[k]
            <= '9' by {
            if host[k] != '.' {
                let i = choose|i: int| 0 <= i < parts.len() && #[trigger] parts[i].contains(host[k]);
                let j = choose|j: int| 0 <= j < parts[i].len() && parts[i][j] == host[k];
                if i > 0 {
                    assert(i == 1 || i == 2 || i == 3);
                    assert(is_octet(parts[i]));
                    assert(duration_serde::is_digit(parts[i][j]));
                }
            }
        }
        lemma_parts_length(host, '.');
    } else if is_loopback_v6(host) {
        let parts = parts_of(host, ':');
        lemma_parts(host, ':');
        lemma_parts_length(host, ':');
        assert forall|k: int| 0 <= k < host.len() implies #[trigger] host[k] == ':' || host[k] == '0'
            || host[k] == '1' || host[k] == '.' by {
            if host[k] != ':' {
                let i = choose|i: int| 0 <= i < parts.len() && #[trigger] parts[i].contains(host[k]);
                let j = choose|j: int| 0 <= j < parts[i].len() && parts[i][j] == host[k];
                lemma_group_chars(parts, i, j);
            }
        }
    }
}

/// The characters of the groups of an address of version 6 that is this machine.
proof fn lemma_group_chars(parts: Seq<Seq<char>>, i: int, j: int)
    requires
        parts.len() > 0,
        ({
            ||| is_one_group(parts.last()) && fills_with_zeros(parts.drop_last(), 1)
            ||| parts.last() == seq!['0', '.', '0', '.', '0', '.', '1'] && fills_with_zeros(
                parts.drop_last(),
                2,
            )
        }),
        0 <= i < parts.len(),
        0 <= j < parts[i].len(),
    ensures
        parts[i][j] == '0' || parts[i][j] == '1' || parts[i][j] == '.',
{
    let others = parts.drop_last();
    if i < parts.len() - 1 {
        assert(others[i] == parts[i]);
        if all_zero_groups(others) {
            assert(is_zero_group(others[i]));
        } else if others.len() >= 2 && others[0].len() == 0 && others[1].len() == 0
            && all_zero_groups(others.skip(2)) {
            assert(i >= 2);
            assert(others.skip(2)[i - 2] == others[i]);
            assert(is_zero_group(others.skip(2)[i - 2]));
        } else {
            let gap = choose|gap: int| #[trigger] leaves_out_at(others, gap);
            if i < gap {
                assert(others.take(gap)[i] == others[i]);
                assert(is_zero_group(others.take(gap)[i]));
            } else {
                assert(i > gap);
                assert(others.skip(gap + 1)[i - gap - 1] == others[i]);
                assert(is_zero_group(others.skip(gap + 1)[i - gap - 1]));
            }
        }
    } else {
        assert(parts[i] == parts.last());
        if is_one_group(parts.last()) {
            if j < parts[i].len() - 1 {
                assert(parts[i][j] == '0');
            }
        }
    }
}

/// A text is at least as long as its separators and any of its parts together.
proof fn lemma_parts_length(value: Seq<char>, separator: char)
    ensures
        ({
            let parts = parts_of(value, separator);
            &&& parts.len() > 0
            &&& total_length(parts) + parts.len() - 1 == value.len()
        }),
        parts_of(value, separator).len() == 4 ==> value.len() == parts_of(value, separator)[0].len()
            + parts_of(value, separator)[1].len() + parts_of(value, separator)[2].len() + parts_of(
            value,
            separator,
        )[3].len() + 3,
        parts_of(value, separator).last().len() <= value.len(),
    decreases value.len(),
{
    let all = parts_of(value, separator);
    if value.len() > 0 {
        let rest = value.drop_last();
        let before = parts_of(rest, separator);
        lemma_parts_length(rest, separator);
        if value.last() == separator {
            assert(all.drop_last() =~= before);
            assert(all.last().len() == 0);
        } else {
            assert(all.drop_last() =~= before.drop_last());
            assert(all.last().len() == before.last().len() + 1);
            assert(total_length(before) == total_length(before.drop_last()) + before.last().len());
        }
    } else {
        assert(all.drop_last() =~= Seq::<Seq<char>>::empty());
        assert(all.last().len() == 0);
        assert(total_length(Seq::<Seq<char>>::empty()) == 0);
    }
    assert(total_length(all) == total_length(all.drop_last()) + all.last().len());
    if all.len() == 4 {
        reveal_with_fuel(total_length, 5);
        assert(all.drop_last().drop_last().drop_last().drop_last() =~= Seq::<Seq<char>>::empty());
    }
}

/// The lengths of some texts together.
spec fn total_length(parts: Seq<Seq<char>>) -> nat
    decreases parts.len(),
{
    if parts.len() == 0 {
        0
    } else {
        total_length(parts.drop_last()) + parts.last().len()
    }
}

/// Texts without the separator, joined by it, are parted again.
proof fn lemma_part_added(value: Seq<char>, separator: char, part: Seq<char>)
    requires
        !part.contains(separator),
    ensures
        parts_of(value + seq![separator] + part, separator) == parts_of(value, separator).push(
            part,
        ),
    decreases part.len(),
{
    let all = value + seq![separator] + part;
    let before = parts_of(value, separator);
    if part.len() == 0 {
        assert(all.last() == separator);
        assert(all.drop_last() =~= value);
        assert(part =~= Seq::<char>::empty());
    } else {
        let rest = part.drop_last();
        assert(part.contains(part[part.len() - 1]));
        assert forall|k: int| 0 <= k < rest.len() implies rest[k] != separator by {
            assert(part.contains(part[k]));
        }
        lemma_part_added(value, separator, rest);
        assert(all.last() == part.last());
        assert(all.drop_last() =~= value + seq![separator] + rest);
        let shorter = before.push(rest);
        assert(shorter.drop_last() =~= before);
        assert(shorter.last() == rest);
        assert(rest.push(part.last()) =~= part);
    }
}

/// A text without the separator is its only part.
proof fn lemma_only_part(value: Seq<char>, separator: char)
    requires
        !value.contains(separator),
    ensures
        parts_of(value, separator) == seq![value],
    decreases value.len(),
{
    if value.len() == 0 {
        assert(value =~= Seq::<char>::empty());
    } else {
        let rest = value.drop_last();
        assert(value.contains(value[value.len() - 1]));
        assert forall|k: int| 0 <= k < rest.len() implies rest[k] != separator by {
            assert(value.contains(value[k]));
        }
        lemma_only_part(rest, separator);
        assert(seq![rest].drop_last() =~= Seq::<Seq<char>>::empty());
        assert(rest.push(value.last()) =~= value);
        assert(parts_of(value, separator) =~= seq![value]);
    }
}

/// A number up to 255, written in decimal digits, is an octet.
proof fn lemma_octet(value: nat)
    requires
        value <= 255,
    ensures
        is_octet(text::decimal_text(value)),
        !text::decimal_text(value).contains('.'),
{
    let written = text::decimal_text(value);
    duration_serde::lemma_decimal_value(value);
    reveal_with_fuel(text::decimal_text, 4);
    assert(1 <= written.len() <= 3);
    if value >= 100 {
        assert(written[0] == text::digit(value / 100));
    } else if value >= 10 {
        assert(written[0] == text::digit(value / 10));
    }
    assert forall|k: int| 0 <= k < written.len() implies written[k] != '.' by {
        assert(duration_serde::is_digit(written[k]));
    }
}

/// Every address of version 4 whose first number is 127 is this machine.
pub proof fn law_every_127_address_is_loopback(a: nat, b: nat, c: nat)
    requires
        a <= 255,
        b <= 255,
        c <= 255,
    ensures
        is_loopback_host(
            seq!['1', '2', '7'] + seq!['.'] + text::decimal_text(a) + seq!['.']
                + text::decimal_text(b) + seq!['.'] + text::decimal_text(c),
        ),
        is_loopback_host("localhost"@),
{
    let first = seq!['1', '2', '7'];
    lemma_octet(a);
    lemma_octet(b);
    lemma_octet(c);
    assert(!first.contains('.'));
    lemma_only_part(first, '.');
    let two = first + seq!['.'] + text::decimal_text(a);
    let three = two + seq!['.'] + text::decimal_text(b);
    let four = three + seq!['.'] + text::decimal_text(c);
    lemma_part_added(first, '.', text::decimal_text(a));
    lemma_part_added(two, '.', text::decimal_text(b));
    lemma_part_added(three, '.', text::decimal_text(c));
    let parts = parts_of(four, '.');
    assert(parts[0] == first);
    assert(parts[1] == text::decimal_text(a));
    assert(parts[2] == text::decimal_text(b));
    assert(parts[3] == text::decimal_text(c));
    assert(is_loopback_v4(four));
}

} // verus!
