//! IP addresses and their textual form.
//!
//! An IPv4 address is written as four decimal numbers from 0 to 255 with dots
//! between them, none with a superfluous leading zero. An IPv6 address is
//! written as eight groups of one to four hexadecimal digits with colons
//! between them; one run of zero groups may be left out and written `::`, and
//! the last two groups may be written as an IPv4 address.

use vstd::prelude::*;
use vstd::string::is_ascii_spec_bytes;
use vstd::utf8::is_ascii_chars;

verus! {

/// An IP address as a number: the address bytes read as one big-endian integer.
#[derive(Copy, Clone, PartialEq, Eq, Debug, Structural)]
pub enum IpAddress {
    /// An IPv4 address, 32 bits.
    V4(u32),
    /// An IPv6 address, 128 bits.
    V6(u128),
}

/// The byte `.`.
pub const DOT: u8 = 46;

/// The byte `:`.
pub const COLON: u8 = 58;

/// The value of a decimal digit, or `None` for any other byte.
pub open spec fn digit_value(b: u8) -> Option<int> {
    if 48 <= b <= 57 {
        Some(b - 48)
    } else {
        None
    }
}

/// The value of a hexadecimal digit in either case, or `None` for any other
/// byte.
pub open spec fn hex_digit_value(b: u8) -> Option<int> {
    if 48 <= b <= 57 {
        Some(b - 48)
    } else if 97 <= b <= 102 {
        Some(b - 87)
    } else if 65 <= b <= 70 {
        Some(b - 55)
    } else {
        None
    }
}

/// The number that a sequence of decimal digits denotes.
pub open spec fn decimal_value(digits: Seq<u8>) -> int
    decreases digits.len(),
{
    if digits.len() == 0 {
        0
    } else {
        decimal_value(digits.drop_last()) * 10 + digit_value(digits.last()).unwrap()
    }
}

/// The number that a sequence of hexadecimal digits denotes.
pub open spec fn hex_value(digits: Seq<u8>) -> int
    decreases digits.len(),
{
    if digits.len() == 0 {
        0
    } else {
        hex_value(digits.drop_last()) * 16 + hex_digit_value(digits.last()).unwrap()
    }
}

/// The number from 0 to 255 that `field` denotes: one to three decimal digits,
/// with a leading zero only for the number zero itself.
pub open spec fn octet_of(field: Seq<u8>) -> Option<u8> {
    if 1 <= field.len() <= 3 && (forall|i: int|
        0 <= i < field.len() ==> digit_value(#[trigger] field[i]) is Some) && (field.len() > 1
        ==> field[0] != 48) && decimal_value(field) <= 255 {
        Some(decimal_value(field) as u8)
    } else {
        None
    }
}

/// The 16-bit group that `field` denotes: one to four hexadecimal digits.
pub open spec fn group_of(field: Seq<u8>) -> Option<u16> {
    if 1 <= field.len() <= 4 && (forall|i: int|
        0 <= i < field.len() ==> hex_digit_value(#[trigger] field[i]) is Some) {
        Some(hex_value(field) as u16)
    } else {
        None
    }
}

/// Position of the first `sep` in `s`, or the length of `s` if there is none.
pub open spec fn first_index(s: Seq<u8>, sep: u8) -> int
    decreases s.len(),
{
    if s.len() == 0 || s[0] == sep {
        0
    } else {
        1 + first_index(s.skip(1), sep)
    }
}

/// `first_index` is the one position before which no separator stands and at
/// which the sequence ends or a separator stands.
pub proof fn lemma_first_index(s: Seq<u8>, sep: u8, k: int)
    requires
        0 <= k <= s.len(),
        forall|i: int| 0 <= i < k ==> s[i] != sep,
        k == s.len() || s[k] == sep,
    ensures
        first_index(s, sep) == k,
    decreases s.len(),
{
    if k > 0 {
        let t = s.skip(1);
        assert forall|i: int| 0 <= i < k - 1 implies t[i] != sep by {
            assert(t[i] == s[i + 1]);
        }
        lemma_first_index(t, sep, k - 1);
    }
}

/// Position of the first `sep` in `s[from..to]`, or `to` if there is none.
fn find_byte(s: &[u8], from: usize, to: usize, sep: u8) -> (at: usize)
    requires
        from <= to <= s@.len(),
    ensures
        from <= at <= to,
        at - from == first_index(s@.subrange(from as int, to as int), sep),
{
    let mut at = from;
    while at < to && s[at] != sep
        invariant
            from <= at <= to <= s@.len(),
            forall|i: int| from <= i < at ==> s@[i] != sep,
        decreases to - at,
    {
        at = at + 1;
    }
    proof {
        lemma_first_index(s@.subrange(from as int, to as int), sep, at - from);
    }
    at
}

/// Reads `s[from..to]` as a number from 0 to 255.
fn read_octet(s: &[u8], from: usize, to: usize) -> (octet: Option<u8>)
    requires
        from <= to <= s@.len(),
    ensures
        octet == octet_of(s@.subrange(from as int, to as int)),
{
    let ghost field = s@.subrange(from as int, to as int);
    if to - from < 1 || to - from > 3 {
        return None;
    }
    if to - from > 1 && s[from] == 48 {
        assert(field[0] == 48);
        return None;
    }
    let mut value: u32 = 0;
    let mut at = from;
    proof {
        assert(field.take(0) =~= Seq::<u8>::empty());
    }
    while at < to
        invariant
            from <= at <= to <= s@.len(),
            to - from <= 3,
            field == s@.subrange(from as int, to as int),
            forall|i: int| 0 <= i < at - from ==> digit_value(#[trigger] field[i]) is Some,
            value == decimal_value(field.take(at - from)),
            value <= 999,
            at - from == 0 ==> value == 0,
            at - from == 1 ==> value <= 9,
            at - from == 2 ==> value <= 99,
        decreases to - at,
    {
        let b = s[at];
        if b < 48 || b > 57 {
            assert(digit_value(field[at - from]) is None);
            return None;
        }
        proof {
            assert(field.take(at - from + 1).drop_last() =~= field.take(at - from));
            assert(field.take(at - from + 1).last() == b);
        }
        value = value * 10 + (b - 48) as u32;
        at = at + 1;
    }
    proof {
        assert(field.take(to - from) =~= field);
    }
    if value > 255 {
        None
    } else {
        Some(value as u8)
    }
}

/// Reads `s[from..to]` as a group of one to four hexadecimal digits.
fn read_group(s: &[u8], from: usize, to: usize) -> (group: Option<u16>)
    requires
        from <= to <= s@.len(),
    ensures
        group == group_of(s@.subrange(from as int, to as int)),
{
    let ghost field = s@.subrange(from as int, to as int);
    if to - from < 1 || to - from > 4 {
        return None;
    }
    let mut value: u32 = 0;
    let mut at = from;
    proof {
        assert(field.take(0) =~= Seq::<u8>::empty());
    }
    while at < to
        invariant
            from <= at <= to <= s@.len(),
            to - from <= 4,
            field == s@.subrange(from as int, to as int),
            forall|i: int| 0 <= i < at - from ==> hex_digit_value(#[trigger] field[i]) is Some,
            value == hex_value(field.take(at - from)),
            value <= 0xffff,
            at - from == 0 ==> value == 0,
            at - from == 1 ==> value <= 0xf,
            at - from == 2 ==> value <= 0xff,
            at - from == 3 ==> value <= 0xfff,
        decreases to - at,
    {
        let b = s[at];
        let digit: u32 = if 48 <= b && b <= 57 {
            (b - 48) as u32
        } else if 97 <= b && b <= 102 {
            (b - 87) as u32
        } else if 65 <= b && b <= 70 {
            (b - 55) as u32
        } else {
            assert(hex_digit_value(field[at - from]) is None);
            return None;
        };
        proof {
            assert(field.take(at - from + 1).drop_last() =~= field.take(at - from));
            assert(field.take(at - from + 1).last() == b);
        }
        value = value * 16 + digit;
        at = at + 1;
    }
    proof {
        assert(field.take(to - from) =~= field);
    }
    Some(value as u16)
}

/// `items` in front of what `rest` holds, where `rest` holds anything.
pub open spec fn prepend<T>(items: Seq<T>, rest: Option<Seq<T>>) -> Option<Seq<T>> {
    match rest {
        Some(more) => Some(items + more),
        None => None,
    }
}

/// The numbers of a list of octets with dots between them: an octet, or an
/// octet, a dot and a list of octets. `None` if `s` is no such list.
pub open spec fn octets(s: Seq<u8>) -> Option<Seq<u8>>
    decreases s.len(),
{
    let k = first_index(s, DOT);
    if 0 <= k < s.len() {
        match octet_of(s.take(k)) {
            Some(octet) => prepend(seq![octet], octets(s.skip(k + 1))),
            None => None,
        }
    } else {
        match octet_of(s) {
            Some(octet) => Some(seq![octet]),
            None => None,
        }
    }
}

/// The IPv4 address that `s` denotes: four octets with dots between them, the
/// first octet being the most significant byte.
pub open spec fn parse_ipv4(s: Seq<u8>) -> Option<u32> {
    match octets(s) {
        Some(o) => if o.len() == 4 {
            Some((((o[0] * 256 + o[1]) * 256 + o[2]) * 256 + o[3]) as u32)
        } else {
            None
        },
        None => None,
    }
}

/// Reads `s[from..to]` as an IPv4 address.
fn read_ipv4(s: &[u8], from: usize, to: usize) -> (address: Option<u32>)
    requires
        from <= to <= s@.len(),
    ensures
        address == parse_ipv4(s@.subrange(from as int, to as int)),
{
    let ghost whole = s@.subrange(from as int, to as int);
    let mut read: Vec<u8> = Vec::new();
    let mut at = from;
    proof {
        assert(Seq::<u8>::empty() + seq![0u8] =~= seq![0u8]);
    }
    loop
        invariant_except_break
            octets(whole) == prepend(read@, octets(s@.subrange(at as int, to as int))),
        invariant
            from <= at <= to <= s@.len(),
            whole == s@.subrange(from as int, to as int),
        ensures
            octets(whole) == Some(read@),
        decreases to - at,
    {
        let ghost rest = s@.subrange(at as int, to as int);
        let end = find_byte(s, at, to, DOT);
        proof {
            assert(rest.take(end - at) =~= s@.subrange(at as int, end as int));
            if end < to {
                assert(rest.skip(end - at + 1) =~= s@.subrange(end + 1, to as int));
            } else {
                assert(s@.subrange(at as int, end as int) =~= rest);
            }
        }
        match read_octet(s, at, end) {
            None => {
                return None;
            },
            Some(octet) => {
                proof {
                    if end < to {
                        match octets(s@.subrange(end + 1, to as int)) {
                            Some(m) => {
                                assert(read@ + (seq![octet] + m) =~= read@.push(octet) + m);
                            },
                            None => {},
                        }
                    } else {
                        assert(read@ + seq![octet] =~= read@.push(octet));
                    }
                }
                read.push(octet);
            },
        }
        if end == to {
            break ;
        }
        at = end + 1;
    }
    if read.len() == 4 {
        let value: u32 = ((read[0] as u32 * 256 + read[1] as u32) * 256 + read[2] as u32) * 256
            + read[3] as u32;
        Some(value)
    } else {
        None
    }
}

/// The groups of a list of groups with colons between them: a group, or a
/// group, a colon and a list of groups. With `v4_tail`, the last item of
/// the list may be an IPv4 address, which stands for two groups. `None` if `s`
/// is no such list.
pub open spec fn groups(s: Seq<u8>, v4_tail: bool) -> Option<Seq<u16>>
    decreases s.len(),
{
    let k = first_index(s, COLON);
    if 0 <= k < s.len() {
        match group_of(s.take(k)) {
            Some(group) => prepend(seq![group], groups(s.skip(k + 1), v4_tail)),
            None => None,
        }
    } else {
        match group_of(s) {
            Some(group) => Some(seq![group]),
            None => if v4_tail {
                match parse_ipv4(s) {
                    Some(a) => Some(seq![(a / 65536) as u16, (a % 65536) as u16]),
                    None => None,
                }
            } else {
                None
            },
        }
    }
}

/// The groups of a list of groups that may be empty.
pub open spec fn group_list(s: Seq<u8>, v4_tail: bool) -> Option<Seq<u16>> {
    if s.len() == 0 {
        Some(Seq::empty())
    } else {
        groups(s, v4_tail)
    }
}

/// Reads `s[from..to]` as a list of groups that may be empty.
fn read_groups(s: &[u8], from: usize, to: usize, v4_tail: bool) -> (list: Option<Vec<u16>>)
    requires
        from <= to <= s@.len(),
    ensures
        match list {
            Some(read) => group_list(s@.subrange(from as int, to as int), v4_tail) == Some(read@),
            None => group_list(s@.subrange(from as int, to as int), v4_tail) is None,
        },
{
    let ghost whole = s@.subrange(from as int, to as int);
    let mut read: Vec<u16> = Vec::new();
    if from == to {
        return Some(read);
    }
    let mut at = from;
    proof {
        assert(Seq::<u16>::empty() + seq![0u16] =~= seq![0u16]);
    }
    loop
        invariant_except_break
            groups(whole, v4_tail) == prepend(
                read@,
                groups(s@.subrange(at as int, to as int), v4_tail),
            ),
        invariant
            from <= at <= to <= s@.len(),
            from < to,
            whole == s@.subrange(from as int, to as int),
        ensures
            groups(whole, v4_tail) == Some(read@),
        decreases to - at,
    {
        let ghost rest = s@.subrange(at as int, to as int);
        let end = find_byte(s, at, to, COLON);
        proof {
            assert(rest.take(end - at) =~= s@.subrange(at as int, end as int));
            if end < to {
                assert(rest.skip(end - at + 1) =~= s@.subrange(end + 1, to as int));
            } else {
                assert(s@.subrange(at as int, end as int) =~= rest);
            }
        }
        match read_group(s, at, end) {
            Some(group) => {
                proof {
                    if end < to {
                        match groups(s@.subrange(end + 1, to as int), v4_tail) {
                            Some(m) => {
                                assert(read@ + (seq![group] + m) =~= read@.push(group) + m);
                            },
                            None => {},
                        }
                    } else {
                        assert(read@ + seq![group] =~= read@.push(group));
                    }
                }
                read.push(group);
            },
            None => {
                if end < to || !v4_tail {
                    return None;
                }
                match read_ipv4(s, at, end) {
                    Some(a) => {
                        let high: u16 = (a / 65536) as u16;
                        let low: u16 = (a % 65536) as u16;
                        proof {
                            assert(read@ + seq![high, low] =~= read@.push(high).push(low));
                        }
                        read.push(high);
                        read.push(low);
                    },
                    None => {
                        return None;
                    },
                }
            },
        }
        if end == to {
            break ;
        }
        at = end + 1;
    }
    Some(read)
}

/// A `::` begins at position `i` of `s`.
pub open spec fn double_colon_at(s: Seq<u8>, i: int) -> bool {
    0 <= i && i + 1 < s.len() && s[i] == COLON && s[i + 1] == COLON
}

/// Position of the first `::` in `s`, or the length of `s` if there is none.
pub open spec fn first_double_colon(s: Seq<u8>) -> int
    decreases s.len(),
{
    if s.len() < 2 {
        s.len() as int
    } else if double_colon_at(s, 0) {
        0
    } else {
        1 + first_double_colon(s.skip(1))
    }
}

/// `first_double_colon` is the one position before which no `::` begins and at
/// which one begins, or else the length of the sequence.
pub proof fn lemma_first_double_colon(s: Seq<u8>, k: int)
    requires
        0 <= k <= s.len(),
        forall|i: int| 0 <= i < k ==> !double_colon_at(s, i),
        k == s.len() || double_colon_at(s, k),
    ensures
        first_double_colon(s) == k,
    decreases s.len(),
{
    if s.len() >= 2 && k > 0 {
        let t = s.skip(1);
        assert forall|i: int| 0 <= i < k - 1 implies !double_colon_at(t, i) by {
            assert(!double_colon_at(s, i + 1));
            if i + 1 < t.len() {
                assert(t[i] == s[i + 1]);
                assert(t[i + 1] == s[i + 2]);
            }
        }
        assert(!double_colon_at(s, 0));
        if k < s.len() {
            assert(t[k - 1] == s[k]);
            assert(t[k] == s[k + 1]);
        }
        lemma_first_double_colon(t, k - 1);
    }
}

/// Eight groups from the groups before and after a `::`, which stands for the
/// zero groups in between.
pub open spec fn expand(head: Seq<u16>, tail: Seq<u16>) -> Seq<u16> {
    head + Seq::new((8 - head.len() - tail.len()) as nat, |i: int| 0u16) + tail
}

/// The number that eight groups denote, the first group being the most
/// significant.
pub open spec fn pack(g: Seq<u16>) -> int {
    ((((((g[0] * 65536 + g[1]) * 65536 + g[2]) * 65536 + g[3]) * 65536 + g[4]) * 65536 + g[5])
        * 65536 + g[6]) * 65536 + g[7]
}

/// The IPv6 address that `s` denotes. Without a `::`, `s` is a list of eight
/// groups. With one, the groups before it and the groups after it are at most
/// seven together.
pub open spec fn parse_ipv6(s: Seq<u8>) -> Option<u128> {
    let k = first_double_colon(s);
    if 0 <= k < s.len() {
        match (group_list(s.take(k), false), group_list(s.skip(k + 2), true)) {
            (Some(head), Some(tail)) => if head.len() + tail.len() <= 7 {
                Some(pack(expand(head, tail)) as u128)
            } else {
                None
            },
            _ => None,
        }
    } else {
        match groups(s, true) {
            Some(g) => if g.len() == 8 {
                Some(pack(g) as u128)
            } else {
                None
            },
            None => None,
        }
    }
}

/// The IP address that `s` denotes, if it denotes one.
pub open spec fn parse_ip(s: Seq<u8>) -> Option<IpAddress> {
    match parse_ipv4(s) {
        Some(a) => Some(IpAddress::V4(a)),
        None => match parse_ipv6(s) {
            Some(a) => Some(IpAddress::V6(a)),
            None => None,
        },
    }
}

/// Position of the first `::` in `s`, or the length of `s` if there is none.
fn find_double_colon(s: &[u8]) -> (at: usize)
    ensures
        at == first_double_colon(s@),
        at <= s@.len(),
        at < s@.len() ==> at + 2 <= s@.len(),
{
    let len = s.len();
    let mut at: usize = 0;
    while at < len
        invariant
            at <= len == s@.len(),
            forall|i: int| 0 <= i < at ==> !double_colon_at(s@, i),
        decreases len - at,
    {
        if at + 1 < len && s[at] == COLON && s[at + 1] == COLON {
            proof {
                lemma_first_double_colon(s@, at as int);
            }
            return at;
        }
        at = at + 1;
    }
    proof {
        lemma_first_double_colon(s@, len as int);
    }
    len
}

/// The number that the eight groups in `g` denote.
fn pack_groups(g: &Vec<u16>) -> (value: u128)
    requires
        g@.len() == 8,
    ensures
        value == pack(g@),
{
    let a: u128 = ((g[0] as u128 * 65536 + g[1] as u128) * 65536 + g[2] as u128) * 65536
        + g[3] as u128;
    let b: u128 = ((g[4] as u128 * 65536 + g[5] as u128) * 65536 + g[6] as u128) * 65536
        + g[7] as u128;
    a * 0x1_0000_0000_0000_0000 + b
}

/// Reads `s` as an IPv6 address.
fn read_ipv6(s: &[u8]) -> (address: Option<u128>)
    ensures
        address == parse_ipv6(s@),
{
    let len = s.len();
    let k = find_double_colon(s);
    if k < len {
        proof {
            assert(s@.take(k as int) =~= s@.subrange(0, k as int));
            assert(s@.skip(k + 2) =~= s@.subrange(k + 2, len as int));
        }
        let head = match read_groups(s, 0, k, false) {
            Some(head) => head,
            None => {
                return None;
            },
        };
        let tail = match read_groups(s, k + 2, len, true) {
            Some(tail) => tail,
            None => {
                return None;
            },
        };
        if head.len() > 7 || tail.len() > 7 - head.len() {
            return None;
        }
        let gap: usize = 8 - head.len() - tail.len();
        let mut full: Vec<u16> = Vec::new();
        let mut i: usize = 0;
        while i < head.len()
            invariant
                i <= head.len(),
                full@ == head@.take(i as int),
            decreases head.len() - i,
        {
            full.push(head[i]);
            i = i + 1;
            assert(full@ =~= head@.take(i as int));
        }
        assert(head@.take(head.len() as int) =~= head@);
        i = 0;
        while i < gap
            invariant
                i <= gap,
                full@ == head@ + Seq::new(i as nat, |j: int| 0u16),
            decreases gap - i,
        {
            full.push(0);
            i = i + 1;
            assert(full@ =~= head@ + Seq::new(i as nat, |j: int| 0u16));
        }
        i = 0;
        while i < tail.len()
            invariant
                i <= tail.len(),
                full@ == head@ + Seq::new(gap as nat, |j: int| 0u16) + tail@.take(i as int),
            decreases tail.len() - i,
        {
            full.push(tail[i]);
            i = i + 1;
            assert(full@ =~= head@ + Seq::new(gap as nat, |j: int| 0u16) + tail@.take(i as int));
        }
        assert(tail@.take(tail.len() as int) =~= tail@);
        Some(pack_groups(&full))
    } else {
        proof {
            assert(s@.subrange(0, len as int) =~= s@);
        }
        match read_groups(s, 0, len, true) {
            Some(g) => if g.len() == 8 {
                Some(pack_groups(&g))
            } else {
                None
            },
            None => None,
        }
    }
}

/// Reads `s` as an IP address.
fn read_ip(s: &[u8]) -> (address: Option<IpAddress>)
    ensures
        address == parse_ip(s@),
{
    proof {
        assert(s@.subrange(0, s@.len() as int) =~= s@);
    }
    match read_ipv4(s, 0, s.len()) {
        Some(a) => Some(IpAddress::V4(a)),
        None => match read_ipv6(s) {
            Some(a) => Some(IpAddress::V6(a)),
            None => None,
        },
    }
}

/// The bytes of a text made of ASCII characters.
pub open spec fn ascii_bytes(text: Seq<char>) -> Seq<u8> {
    Seq::new(text.len(), |i: int| text[i] as u8)
}

/// The IP address that `text` denotes, if it denotes one. A text with a
/// character outside ASCII denotes none.
pub open spec fn ip_of_text(text: Seq<char>) -> Option<IpAddress> {
    if is_ascii_chars(text) {
        parse_ip(ascii_bytes(text))
    } else {
        None
    }
}

impl IpAddress {
    /// Reads an IP address in its textual form.
    pub fn parse(text: &str) -> (address: Option<IpAddress>)
        ensures
            address == ip_of_text(text@),
    {
        if !text.is_ascii() {
            return None;
        }
        let bytes = text.as_bytes();
        proof {
            is_ascii_spec_bytes(text);
            assert(bytes@ =~= ascii_bytes(text@));
        }
        read_ip(bytes)
    }
}

} // verus!
