use vstd::prelude::*;

use crate::message::{Message, MessageKind, MessageModel, RelayError};

verus! {

pub open spec fn is_digit(b: u8) -> bool {
    48 <= b <= 57
}

pub open spec fn all_digits(s: Seq<u8>) -> bool {
    forall|i: int| 0 <= i < s.len() ==> is_digit(#[trigger] s[i])
}

/// The number that a string of decimal digits spells.
pub open spec fn decimal_value(s: Seq<u8>) -> int
    decreases s.len(),
{
    if s.len() == 0 {
        0
    } else {
        decimal_value(s.drop_last()) * 10 + (s.last() - 48)
    }
}

/// The digits of a length field: what follows an optional leading `+`.
pub open spec fn length_digits(s: Seq<u8>) -> Seq<u8> {
    if s.len() > 0 && s[0] == 43 {
        s.drop_first()
    } else {
        s
    }
}

/// The value of a length field, where it is one or more decimal digits
/// (after an optional `+`) whose number fits in a `usize`.
pub open spec fn length_value(s: Seq<u8>) -> Option<nat> {
    let d = length_digits(s);
    if d.len() > 0 && all_digits(d) && decimal_value(d) <= usize::MAX {
        Some(decimal_value(d) as nat)
    } else {
        None
    }
}

proof fn lemma_decimal_prefix(s: Seq<u8>, i: int)
    requires
        all_digits(s),
        0 <= i <= s.len(),
    ensures
        0 <= decimal_value(s.subrange(0, i)) <= decimal_value(s),
    decreases s.len(),
{
    if s.len() > 0 {
        assert(all_digits(s.drop_last()));
        if i < s.len() {
            lemma_decimal_prefix(s.drop_last(), i);
            assert(s.drop_last().subrange(0, i) =~= s.subrange(0, i));
        } else {
            assert(s.subrange(0, i) =~= s);
            lemma_decimal_prefix(s.drop_last(), i - 1);
        }
        lemma_decimal_prefix(s.drop_last(), s.len() - 1);
        assert(s.drop_last().subrange(0, s.len() - 1) =~= s.drop_last());
    } else {
        assert(s.subrange(0, i) =~= s);
    }
}

/// Reads a Content-Length field: decimal digits, optionally after a `+`.
pub fn parse_content_length(field: &[u8]) -> (r: Option<usize>)
    ensures
        match r {
            Some(n) => length_value(field@) == Some(n as nat),
            None => length_value(field@) is None,
        },
{
    let ghost d = length_digits(field@);
    let mut start: usize = 0;
    if field.len() > 0 && field[0] == 43u8 {
        start = 1;
    }
    assert(d =~= field@.subrange(start as int, field@.len() as int));
    if start == field.len() {
        return None;
    }
    let mut acc: usize = 0;
    let mut i: usize = start;
    while i < field.len()
        invariant
            start <= i <= field@.len(),
            d =~= field@.subrange(start as int, field@.len() as int),
            d == length_digits(field@),
            all_digits(d.subrange(0, i - start)),
            acc == decimal_value(d.subrange(0, i - start)),
        decreases field@.len() - i,
    {
        let b = field[i];
        let ghost k = i - start;
        assert(d[k] == b);
        if b < 48u8 || b > 57u8 {
            assert(!all_digits(d));
            assert(length_value(field@) is None);
            return None;
        }
        assert(d.subrange(0, k + 1).drop_last() =~= d.subrange(0, k));
        assert(all_digits(d.subrange(0, k + 1)));
        let digit = (b - 48u8) as usize;
        match acc.checked_mul(10) {
            Some(t) => match t.checked_add(digit) {
                Some(n) => {
                    acc = n;
                },
                None => {
                    assert(decimal_value(d.subrange(0, k + 1)) == acc * 10 + (b - 48));
                    proof {
                        lemma_rest_digits(d, k);
                    }
                    assert(length_value(field@) is None);
                    return None;
                },
            },
            None => {
                assert(decimal_value(d.subrange(0, k + 1)) == acc * 10 + (b - 48));
                proof {
                    lemma_rest_digits(d, k);
                }
                assert(length_value(field@) is None);
                return None;
            },
        }
        i = i + 1;
    }
    assert(d.subrange(0, i - start) =~= d);
    Some(acc)
}

/// Where the digits up to `k` overflow, so do all of them, if they are digits.
proof fn lemma_rest_digits(d: Seq<u8>, k: int)
    requires
        0 <= k < d.len(),
        decimal_value(d.subrange(0, k + 1)) > usize::MAX,
    ensures
        !(all_digits(d) && decimal_value(d) <= usize::MAX),
{
    if all_digits(d) {
        lemma_decimal_prefix(d, k + 1);
    }
}

pub open spec fn ascii_lower(b: u8) -> u8 {
    if 65 <= b <= 90 {
        (b + 32) as u8
    } else {
        b
    }
}

/// A media type is textual when it starts with `text/`, in any letter case.
pub open spec fn is_text_type(s: Seq<u8>) -> bool {
    &&& s.len() >= 5
    &&& ascii_lower(s[0]) == 116
    &&& ascii_lower(s[1]) == 101
    &&& ascii_lower(s[2]) == 120
    &&& ascii_lower(s[3]) == 116
    &&& s[4] == 47
}

pub open spec fn kind_of(content_type: Seq<u8>) -> MessageKind {
    if is_text_type(content_type) {
        MessageKind::Text
    } else {
        MessageKind::Binary
    }
}

fn lower(b: u8) -> (r: u8)
    ensures
        r == ascii_lower(b),
{
    if 65 <= b && b <= 90 {
        b + 32
    } else {
        b
    }
}

/// The kind of message that a Content-Type field declares.
pub fn kind_from_content_type(content_type: &[u8]) -> (r: MessageKind)
    ensures
        r == kind_of(content_type@),
{
    if content_type.len() >= 5 && lower(content_type[0]) == 116 && lower(content_type[1]) == 101
        && lower(content_type[2]) == 120 && lower(content_type[3]) == 116 && content_type[4] == 47
    {
        MessageKind::Text
    } else {
        MessageKind::Binary
    }
}

/// A byte that a header value may hold and still read as text: visible
/// ASCII, space, or tab.
pub open spec fn is_header_byte(b: u8) -> bool {
    (32 <= b <= 126) || b == 9
}

pub open spec fn is_header_text(s: Seq<u8>) -> bool {
    forall|i: int| 0 <= i < s.len() ==> is_header_byte(#[trigger] s[i])
}

/// Whether every byte of a header value is visible ASCII, space, or tab.
pub fn header_is_text(value: &[u8]) -> (r: bool)
    ensures
        r == is_header_text(value@),
{
    let mut i: usize = 0;
    while i < value.len()
        invariant
            i <= value@.len(),
            forall|j: int| 0 <= j < i ==> is_header_byte(#[trigger] value@[j]),
        decreases value@.len() - i,
    {
        let b = value[i];
        if !((32u8 <= b && b <= 126u8) || b == 9u8) {
            assert(!is_header_byte(value@[i as int]));
            return false;
        }
        i = i + 1;
    }
    true
}

/// The most body bytes that a request may carry: what its Content-Length
/// field says, or nothing at all where the field is absent.
pub open spec fn body_limit(content_length: Option<Seq<u8>>) -> Option<nat> {
    match content_length {
        Some(field) => length_value(field),
        None => Some(0),
    }
}

pub open spec fn opt_view(o: Option<&[u8]>) -> Option<Seq<u8>> {
    match o {
        Some(s) => Some(s@),
        None => None,
    }
}

/// Whether a submitted request is well formed: it declares its media type in
/// header text, any length it declares is a number, and its body is within
/// that length.
pub open spec fn accepts(
    content_type: Option<Seq<u8>>,
    content_length: Option<Seq<u8>>,
    body: Seq<u8>,
) -> bool {
    &&& content_type is Some
    &&& is_header_text(content_type->Some_0)
    &&& body_limit(content_length) is Some
    &&& body.len() <= body_limit(content_length)->Some_0
}

/// Turns a submitted request into a message, or rejects it as malformed
/// before any message exists.
pub fn build_message(content_type: Option<&[u8]>, content_length: Option<&[u8]>, body: Vec<u8>) -> (r:
    Result<Message, RelayError>)
    ensures
        r is Ok <==> accepts(opt_view(content_type), opt_view(content_length), body@),
        match r {
            Ok(m) => m@ == (MessageModel {
                payload: body@,
                kind: kind_of(opt_view(content_type)->Some_0),
            }),
            Err(e) => e == RelayError::MalformedInput,
        },
{
    let limit: usize = match content_length {
        Some(field) => match parse_content_length(field) {
            Some(n) => n,
            None => {
                return Err(RelayError::MalformedInput);
            },
        },
        None => 0,
    };
    match content_type {
        Some(t) => {
            if !header_is_text(t) || body.len() > limit {
                return Err(RelayError::MalformedInput);
            }
            let kind = kind_from_content_type(t);
            Ok(Message::new(body, kind))
        },
        None => Err(RelayError::MalformedInput),
    }
}

} // verus!
