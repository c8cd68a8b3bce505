//! Bytes as hex digits, two to a byte, the high one first: how a TSAP is
//! written in a URI.

use vstd::prelude::*;
use vstd::string::*;

verus! {

/// The sixteen digits.
pub const DIGITS: &'static str = "0123456789abcdef";

/// The digit for a number below 16.
pub open spec fn digit(number: int) -> char {
    DIGITS@[number]
}

/// `bytes` as digits.
pub open spec fn encoded(bytes: Seq<u8>) -> Seq<char> {
    Seq::new(
        2 * bytes.len(),
        |i: int|
            digit(
                if i % 2 == 0 {
                    bytes[i / 2] / 16
                } else {
                    bytes[i / 2] % 16
                } as int,
            ),
    )
}

/// The number that a digit of either case stands for.
pub open spec fn value_of(c: char) -> Option<u8> {
    if '0' <= c <= '9' {
        Some((c as u32 - '0' as u32) as u8)
    } else if 'a' <= c <= 'f' {
        Some((10 + (c as u32 - 'a' as u32)) as u8)
    } else if 'A' <= c <= 'F' {
        Some((10 + (c as u32 - 'A' as u32)) as u8)
    } else {
        None
    }
}

/// The bytes that `text` writes, where it is pairs of digits and nothing else.
pub open spec fn decoded(text: Seq<char>) -> Option<Seq<u8>> {
    if text.len() % 2 == 0 && (forall|i: int| 0 <= i < text.len() ==> value_of(#[trigger] text[i]) is Some) {
        Some(
            Seq::new(
                text.len() / 2,
                |i: int| (16 * value_of(text[2 * i])->0 + value_of(text[2 * i + 1])->0) as u8,
            ),
        )
    } else {
        None
    }
}

/// `bytes` as lower-case digits.
#[must_use]
pub fn encode(bytes: &[u8]) -> (text: String)
    ensures
        text@ == encoded(bytes@),
{
    proof {
        reveal_strlit("0123456789abcdef");
    }
    let mut text = String::new();
    let mut at: usize = 0;
    while at < bytes.len()
        invariant
            at <= bytes@.len(),
            DIGITS@.len() == 16,
            text@ == encoded(bytes@.take(at as int)),
        decreases bytes@.len() - at,
    {
        let high: usize = (bytes[at] / 16) as usize;
        let low: usize = (bytes[at] % 16) as usize;
        text.append(DIGITS.substring_char(high, high + 1));
        text.append(DIGITS.substring_char(low, low + 1));
        at = at + 1;
        assert(text@ =~= encoded(bytes@.take(at as int)));
    }
    assert(bytes@.take(at as int) =~= bytes@);
    text
}

/// The number that a digit of either case stands for.
fn number(c: char) -> (value: Option<u8>)
    ensures
        value == value_of(c),
{
    if '0' <= c && c <= '9' {
        Some((c as u32 - '0' as u32) as u8)
    } else if 'a' <= c && c <= 'f' {
        Some((10 + (c as u32 - 'a' as u32)) as u8)
    } else if 'A' <= c && c <= 'F' {
        Some((10 + (c as u32 - 'A' as u32)) as u8)
    } else {
        None
    }
}

/// The bytes that `text` writes, or `None` where it is not pairs of digits.
#[must_use]
pub fn decode(text: &str) -> (bytes: Option<Vec<u8>>)
    ensures
        decoded(text@) == (match bytes {
            Some(bytes) => Some(bytes@),
            None => None,
        }),
{
    let mut bytes: Vec<u8> = Vec::new();
    let mut high: Option<u8> = None;
    for c in it: text.chars()
        invariant
            it.seq() == text@,
            forall|i: int| 0 <= i < it.index() ==> value_of(#[trigger] text@[i]) is Some,
            bytes@.len() == it.index() / 2,
            forall|i: int|
                0 <= i < bytes@.len() ==> #[trigger] bytes@[i] == (16 * value_of(text@[2 * i])->0
                    + value_of(text@[2 * i + 1])->0) as u8,
            high is Some <==> it.index() % 2 == 1,
            high matches Some(number) ==> Some(number) == value_of(text@[it.index() - 1]),
    {
        match number(c) {
            None => {
                return None;
            },
            Some(value) => {
                match high {
                    None => {
                        high = Some(value);
                    },
                    Some(first) => {
                        bytes.push(16 * first + value);
                        high = None;
                    },
                }
            },
        }
    }
    match high {
        Some(_) => None,
        None => {
            assert(decoded(text@)->0 =~= bytes@);
            Some(bytes)
        },
    }
}

/// Bytes are written in digits and in nothing else.
pub proof fn lemma_only_digits(bytes: Seq<u8>)
    ensures
        forall|i: int|
            0 <= i < encoded(bytes).len() ==> '0' <= #[trigger] encoded(bytes)[i] <= '9' || 'a'
                <= encoded(bytes)[i] <= 'f',
{
    reveal_strlit("0123456789abcdef");
}

/// What bytes are written as reads back as the bytes.
pub proof fn lemma_round_trip(bytes: Seq<u8>)
    ensures
        decoded(encoded(bytes)) == Some(bytes),
{
    let text = encoded(bytes);
    assert forall|i: int| 0 <= i < text.len() implies value_of(#[trigger] text[i]) == Some(
        if i % 2 == 0 {
            bytes[i / 2] / 16
        } else {
            bytes[i / 2] % 16
        },
    ) by {
        reveal_strlit("0123456789abcdef");
    }
    assert forall|i: int| 0 <= i < bytes.len() implies #[trigger] decoded(text)->0[i]
        == bytes[i] by {
        assert(value_of(text[2 * i]) == Some((bytes[i] / 16) as u8));
        assert(value_of(text[2 * i + 1]) == Some((bytes[i] % 16) as u8));
    }
    assert(decoded(text)->0 =~= bytes);
}

/// Whether a character is a digit that stands for this number.
pub open spec fn stands_for(c: char, number: int) -> bool {
    ||| '0' <= c <= '9' && number == c as int - 48
    ||| 'a' <= c <= 'f' && number == c as int - 87
    ||| 'A' <= c <= 'F' && number == c as int - 55
}

/// Whether a character is a digit of either case.
pub open spec fn is_digit(c: char) -> bool {
    '0' <= c <= '9' || 'a' <= c <= 'f' || 'A' <= c <= 'F'
}

/// A byte is written as two digits, none of them upper-case, that stand for
/// its high four bits and its low four bits, and the bytes come in order.
pub proof fn lemma_written_digits(bytes: Seq<u8>)
    ensures
        encoded(bytes).len() == 2 * bytes.len(),
        forall|i: int|
            0 <= i < bytes.len() ==> {
                &&& stands_for(encoded(bytes)[2 * i], #[trigger] bytes[i] as int / 16)
                &&& stands_for(encoded(bytes)[2 * i + 1], bytes[i] as int % 16)
            },
        forall|i: int|
            0 <= i < encoded(bytes).len() ==> !('A' <= #[trigger] encoded(bytes)[i] <= 'F'),
{
    assert forall|i: int| 0 <= i < bytes.len() implies {
        &&& stands_for(encoded(bytes)[2 * i], #[trigger] bytes[i] as int / 16)
        &&& stands_for(encoded(bytes)[2 * i + 1], bytes[i] as int % 16)
    } by {
        lemma_digit(bytes[i] as int / 16);
        lemma_digit(bytes[i] as int % 16);
        assert(encoded(bytes)[2 * i] == digit((bytes[i] / 16) as int));
        assert(encoded(bytes)[2 * i + 1] == digit((bytes[i] % 16) as int));
    }
    lemma_only_digits(bytes);
}

/// The digit for a number stands for it.
proof fn lemma_digit(number: int)
    requires
        0 <= number < 16,
    ensures
        stands_for(digit(number), number),
{
    reveal_strlit("0123456789abcdef");
}

/// Text is bytes exactly where it is an even number of digits of either case,
/// and each two of them then stand for the high and the low four bits of a
/// byte.
pub proof fn lemma_read_digits(text: Seq<char>)
    ensures
        decoded(text) is Some <==> text.len() % 2 == 0 && forall|i: int|
            0 <= i < text.len() ==> is_digit(#[trigger] text[i]),
        decoded(text) matches Some(bytes) ==> {
            &&& 2 * bytes.len() == text.len()
            &&& forall|i: int|
                0 <= i < bytes.len() ==> {
                    &&& stands_for(text[2 * i], #[trigger] bytes[i] as int / 16)
                    &&& stands_for(text[2 * i + 1], bytes[i] as int % 16)
                }
        },
{
    assert forall|i: int| 0 <= i < text.len() implies (is_digit(#[trigger] text[i]) <==> value_of(
        text[i],
    ) is Some) by {}
    if let Some(bytes) = decoded(text) {
        assert forall|i: int| 0 <= i < bytes.len() implies {
            &&& stands_for(text[2 * i], #[trigger] bytes[i] as int / 16)
            &&& stands_for(text[2 * i + 1], bytes[i] as int % 16)
        } by {
            assert(value_of(text[2 * i]) is Some);
            assert(value_of(text[2 * i + 1]) is Some);
        }
    }
}

} // verus!
