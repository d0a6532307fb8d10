//! The text of messages and exports: decimal numbers, quoting, joining.

use vstd::prelude::*;
use vstd::string::StringExecFns;

verus! {

/// The character of one decimal digit.
pub open spec fn digit(value: nat) -> char
    recommends
        value < 10,
{
    (48 + value) as char
}

/// A natural number in decimal, without leading zeros.
pub open spec fn decimal(value: nat) -> Seq<char>
    decreases value,
{
    if value < 10 {
        seq![digit(value)]
    } else {
        decimal(value / 10).push(digit(value % 10))
    }
}

/// What Rust's debug format makes of a string: the string in double quotes,
/// with its special characters escaped.
pub uninterp spec fn debug_text(text: Seq<char>) -> Seq<char>;

/// Calls `format!` with `{:?}` on a string. The contract only gives the result
/// a name; the escaping rules of `str`'s `Debug` are not spelled out.
#[verifier::external_body]
pub(crate) fn quoted(text: &str) -> (result: String)
    ensures
        result@ == debug_text(text@),
{
    format!("{:?}", text)
}

/// Whether two texts are the same, character by character.
pub(crate) fn same_text(a: &str, b: &str) -> (result: bool)
    ensures
        result == (a@ == b@),
{
    let total: usize = a.unicode_len();
    if total != b.unicode_len() {
        return false;
    }
    let mut i: usize = 0;
    while i < total
        invariant
            i <= total,
            total == a@.len(),
            total == b@.len(),
            forall|k: int| 0 <= k < i ==> a@[k] == #[trigger] b@[k],
        decreases total - i,
    {
        if a.get_char(i) != b.get_char(i) {
            return false;
        }
        i += 1;
    }
    assert(a@ =~= b@);
    true
}

fn digit_text(value: u64) -> (result: &'static str)
    requires
        value < 10,
    ensures
        result@ == seq![digit(value as nat)],
{
    proof {
        reveal_strlit("0");
        reveal_strlit("1");
        reveal_strlit("2");
        reveal_strlit("3");
        reveal_strlit("4");
        reveal_strlit("5");
        reveal_strlit("6");
        reveal_strlit("7");
        reveal_strlit("8");
        reveal_strlit("9");
    }
    if value == 0 {
        "0"
    } else if value == 1 {
        "1"
    } else if value == 2 {
        "2"
    } else if value == 3 {
        "3"
    } else if value == 4 {
        "4"
    } else if value == 5 {
        "5"
    } else if value == 6 {
        "6"
    } else if value == 7 {
        "7"
    } else if value == 8 {
        "8"
    } else {
        "9"
    }
}

/// Appends a number in decimal.
pub fn append_decimal(text: &mut String, value: u64)
    ensures
        final(text)@ == old(text)@ + decimal(value as nat),
    decreases value,
{
    if value < 10 {
        text.append(digit_text(value));
    } else {
        append_decimal(text, value / 10);
        text.append(digit_text(value % 10));
    }
}

/// A message made of a text, a number and a text.
pub fn sentence(head: &str, value: u64, tail: &str) -> (result: String)
    ensures
        result@ == head@ + decimal(value as nat) + tail@,
{
    let mut text = head.to_owned();
    append_decimal(&mut text, value);
    text.append(tail);
    text
}

/// A message made of three texts around two numbers.
pub fn sentence2(head: &str, first: u64, middle: &str, second: u64, tail: &str) -> (result: String)
    ensures
        result@ == head@ + decimal(first as nat) + middle@ + decimal(second as nat) + tail@,
{
    let mut text = sentence(head, first, middle);
    append_decimal(&mut text, second);
    text.append(tail);
    text
}

/// A message made of two texts around a third.
pub fn around(head: &str, inner: &str, tail: &str) -> (result: String)
    ensures
        result@ == head@ + inner@ + tail@,
{
    let mut text = head.to_owned();
    text.append(inner);
    text.append(tail);
    text
}

/// Joins two texts.
pub fn join(head: &str, tail: &str) -> (result: String)
    ensures
        result@ == head@ + tail@,
{
    let mut text = head.to_owned();
    text.append(tail);
    text
}

pub(crate) proof fn decimal_is_not_empty(value: nat)
    ensures
        decimal(value).len() > 0,
{
}

/// Different numbers have different decimals.
pub proof fn decimal_is_injective(a: nat, b: nat)
    ensures
        decimal(a) == decimal(b) ==> a == b,
    decreases a + b,
{
    if decimal(a) == decimal(b) {
        if a >= 10 && b >= 10 {
            let x = decimal(a / 10);
            let y = decimal(b / 10);
            assert(decimal(a).drop_last() =~= x);
            assert(decimal(b).drop_last() =~= y);
            assert(decimal(a).last() == digit(a % 10));
            assert(decimal(b).last() == digit(b % 10));
            decimal_is_injective(a / 10, b / 10);
        } else if a >= 10 {
            decimal_is_not_empty(a / 10);
            assert(decimal(a).len() >= 2);
            assert(decimal(b).len() == 1);
        } else if b >= 10 {
            decimal_is_not_empty(b / 10);
            assert(decimal(b).len() >= 2);
            assert(decimal(a).len() == 1);
        } else {
            assert(decimal(a)[0] == digit(a));
            assert(decimal(b)[0] == digit(b));
        }
    }
}

/// The part stands in the text at that place.
pub open spec fn stands_at(text: Seq<char>, part: Seq<char>, place: int) -> bool {
    0 <= place <= text.len() - part.len() && text.subrange(place, place + part.len()) == part
}

/// The part stands somewhere in the text.
pub open spec fn holds_text(text: Seq<char>, part: Seq<char>) -> bool {
    exists|place: int| stands_at(text, part, place)
}

fn is_at(text: &str, part: &str, place: usize) -> (result: bool)
    requires
        place + part@.len() <= text@.len(),
    ensures
        result == stands_at(text@, part@, place as int),
{
    let total: usize = part.unicode_len();
    let all: usize = text.unicode_len();
    let mut i: usize = 0;
    while i < total
        invariant
            i <= total,
            total == part@.len(),
            all == text@.len(),
            place + total <= all,
            forall|k: int| 0 <= k < i ==> text@[place + k] == #[trigger] part@[k],
        decreases total - i,
    {
        if text.get_char(place + i) != part.get_char(i) {
            assert(text@.subrange(place as int, place + total)[i as int] != part@[i as int]);
            return false;
        }
        i += 1;
    }
    assert(text@.subrange(place as int, place + total) =~= part@);
    true
}

/// Whether the part stands somewhere in the text.
pub fn contains_text(text: &str, part: &str) -> (result: bool)
    ensures
        result == holds_text(text@, part@),
{
    let total: usize = text.unicode_len();
    let length: usize = part.unicode_len();
    if length > total {
        return false;
    }
    let last: usize = total - length;
    let mut place: usize = 0;
    while place < last
        invariant
            place <= last,
            last == total - length,
            total == text@.len(),
            length == part@.len(),
            forall|k: int| 0 <= k < place ==> !(#[trigger] stands_at(text@, part@, k)),
        decreases last - place,
    {
        if is_at(text, part, place) {
            return true;
        }
        place += 1;
    }
    is_at(text, part, last)
}

} // verus!
