//! Rooms in which peers meet.

use crate::assoc::Key;
use crate::text::{decimal, law_decimal_digits};
use vstd::arithmetic::power::pow;
use vstd::prelude::*;
use vstd::string::*;

verus! {

/// A room, named by the path of the websocket.
pub struct RoomId(pub String);

/// The room that a peer asks for. With `next`, the peers of the room are put together in groups
/// of that many, and each group has the room to itself.
pub struct RequestedRoom {
    pub id: RoomId,
    pub next: Option<usize>,
}

/// A room as a value of its own.
#[verifier::ext_equal]
pub struct RoomView {
    pub id: Seq<char>,
    pub next: Option<usize>,
}

impl View for RequestedRoom {
    type V = RoomView;

    open spec fn view(&self) -> RoomView {
        RoomView { id: self.id.0@, next: self.next }
    }
}

impl Clone for RequestedRoom {
    fn clone(&self) -> (copy: Self)
        ensures
            copy@ == self@,
            copy.id.0@ == self.id.0@,
            copy.next == self.next,
    {
        RequestedRoom { id: RoomId(self.id.0.clone()), next: self.next }
    }
}

impl Key for RequestedRoom {
    fn same(&self, other: &Self) -> (same: bool) {
        let named_alike = self.id.0 == other.id.0;
        match (self.next, other.next) {
            (None, None) => named_alike,
            (Some(a), Some(b)) => named_alike && a == b,
            _ => false,
        }
    }
}

/// The address of the machine that a connection comes from.
#[derive(Clone, Copy, Debug, PartialEq, Eq, Structural)]
pub enum ClientAddr {
    V4 { bits: u32, port: u16 },
    V6 { wide_bits: u128, port: u16, flowinfo: u32, scope_id: u32 },
}

impl View for ClientAddr {
    type V = ClientAddr;

    open spec fn view(&self) -> ClientAddr {
        *self
    }
}

impl Key for ClientAddr {
    fn same(&self, other: &Self) -> (same: bool) {
        *self == *other
    }
}

/// Whether `c` is a decimal digit.
pub open spec fn is_digit(c: char) -> bool {
    '0' <= c <= '9'
}

/// The number that decimal digits write.
pub open spec fn digits_value(s: Seq<char>) -> nat
    decreases s.len(),
{
    if s.len() == 0 {
        0
    } else {
        digits_value(s.drop_last()) * 10 + (s.last() as nat - '0' as nat) as nat
    }
}

/// The digits of a number text: a plus sign before them is left out.
pub open spec fn number_digits(s: Seq<char>) -> Seq<char> {
    if s.len() > 0 && s[0] == '+' {
        s.skip(1)
    } else {
        s
    }
}

/// The number that a text writes: one digit or more, with or without a plus sign before them, and
/// nothing else; none if it does not fit.
pub open spec fn parsed_usize(s: Seq<char>) -> Option<usize> {
    let digits = number_digits(s);
    if digits.len() > 0 && (forall|i: int| 0 <= i < digits.len() ==> is_digit(#[trigger] digits[i]))
        && digits_value(digits) <= usize::MAX {
        Some(digits_value(digits) as usize)
    } else {
        None
    }
}

proof fn lemma_digits_value_grows(s: Seq<char>, k: int)
    requires
        0 <= k <= s.len(),
        forall|i: int| 0 <= i < s.len() ==> is_digit(#[trigger] s[i]),
    ensures
        digits_value(s.take(k)) <= digits_value(s),
    decreases s.len() - k,
{
    if k < s.len() {
        assert(s.take(k + 1).drop_last() =~= s.take(k));
        assert(is_digit(s[k]));
        lemma_digits_value_grows(s, k + 1);
    } else {
        assert(s.take(k) =~= s);
    }
}

/// Reads a number in decimal.
pub fn parse_usize(text: &str) -> (number: Option<usize>)
    ensures
        number == parsed_usize(text@),
{
    let len: usize = text.unicode_len();
    let mut i: usize = 0;
    if len > 0 && text.get_char(0) == '+' {
        i = 1;
    }
    let start: usize = i;
    let ghost digits = number_digits(text@);
    assert(digits =~= text@.skip(start as int));
    if i == len {
        return None;
    }
    let mut value: usize = 0;
    while i < len
        invariant
            start <= i <= len,
            start < len,
            len == text@.len(),
            digits == number_digits(text@),
            digits == text@.skip(start as int),
            forall|j: int| 0 <= j < i - start ==> is_digit(#[trigger] digits[j]),
            value == digits_value(digits.take(i - start)),
        decreases len - i,
    {
        let c = text.get_char(i);
        assert(c == digits[i - start]);
        if c < '0' || c > '9' {
            assert(!is_digit(digits[i - start]));
            return None;
        }
        assert(digits.take(i + 1 - start).drop_last() =~= digits.take(i - start));
        let d: usize = (c as u32 - '0' as u32) as usize;
        proof {
            if forall|j: int| 0 <= j < digits.len() ==> is_digit(#[trigger] digits[j]) {
                lemma_digits_value_grows(digits, i + 1 - start);
            }
        }
        match value.checked_mul(10) {
            Some(shifted) => match shifted.checked_add(d) {
                Some(sum) => {
                    value = sum;
                },
                None => {
                    return None;
                },
            },
            None => {
                return None;
            },
        }
        i = i + 1;
    }
    assert(digits.take(i - start) =~= digits);
    Some(value)
}

/// The room that a connection asks for: the path of its URL, which may be missing, and the number
/// in its query parameter `next`, if it is one.
pub fn requested_room(path: Option<String>, next: Option<String>) -> (room: RequestedRoom)
    ensures
        room@.id == (match path {
            Some(path) => path@,
            None => Seq::<char>::empty(),
        }),
        room@.next == (match next {
            Some(next) => parsed_usize(next@),
            None => None,
        }),
        path matches Some(path) ==> room.id.0@ == path@,
        path is None ==> room.id.0@.len() == 0,
        next matches Some(next) ==> room.next == parsed_usize(next@),
        next is None ==> room.next is None,
{
    let id = match path {
        Some(path) => path,
        None => String::new(),
    };
    let next = match next {
        Some(next) => parse_usize(next.as_str()),
        None => None,
    };
    RequestedRoom { id: RoomId(id), next }
}

/// Two rooms are the same exactly if they have the same name and ask for the same number.
pub proof fn law_same_room(a: RequestedRoom, b: RequestedRoom)
    ensures
        a@ == b@ <==> a.id.0@ == b.id.0@ && a.next == b.next,
        a@.id == a.id.0@,
        a@.next == a.next,
{
}

/// Two addresses are the same exactly if they agree in everything.
pub proof fn law_same_address(a: ClientAddr, b: ClientAddr)
    ensures
        a@ == b@ <==> a == b,
{
}

/// The value of digits is that of the first of them, moved up by the number of the others, and that
/// of the others; a single digit is its own value.
pub proof fn law_digits_value_parts(s: Seq<char>, t: Seq<char>, c: char)
    requires
        forall|i: int| 0 <= i < t.len() ==> is_digit(#[trigger] t[i]),
        is_digit(c),
    ensures
        digits_value(Seq::empty()) == 0,
        digits_value(seq![c]) == c as int - '0' as int,
        digits_value(s + t) == digits_value(s) * pow(10, t.len()) + digits_value(t),
    decreases t.len(),
{
    reveal_with_fuel(digits_value, 2);
    assert(seq![c].drop_last() =~= Seq::<char>::empty());
    reveal(pow);
    if t.len() == 0 {
        assert(s + t =~= s);
        assert(t =~= Seq::empty());
    } else {
        let front = t.drop_last();
        assert(is_digit(t[t.len() - 1]));
        assert forall|i: int| 0 <= i < front.len() implies is_digit(#[trigger] front[i]) by {
            assert(is_digit(t[i]));
        }
        law_digits_value_parts(s, front, c);
        assert((s + t).drop_last() =~= s + front);
        let v = digits_value(s) as int;
        let p = pow(10, front.len());
        assert((v * p) * 10 == v * (10 * p)) by (nonlinear_arith);
    }
}

/// A digit is one of the ten characters from zero to nine.
pub proof fn law_digits(c: char)
    ensures
        is_digit(c) <==> '0' as int <= c as int <= '9' as int,
{
}

/// Whether a text is a number is said by its characters: a plus sign may stand first, and all
/// others, at least one, are digits.
pub proof fn law_number_text(s: Seq<char>)
    ensures
        ({
            let signed = s.len() > 0 && s[0] == '+';
            let start: int = if signed {
                1
            } else {
                0
            };
            let wellformed = s.len() > start && forall|i: int|
                start <= i < s.len() ==> '0' <= #[trigger] s[i] <= '9';
            &&& !wellformed ==> parsed_usize(s) is None
            &&& wellformed && digits_value(s.skip(start)) <= usize::MAX ==> parsed_usize(s)
                == Some(digits_value(s.skip(start)) as usize)
            &&& wellformed && digits_value(s.skip(start)) > usize::MAX ==> parsed_usize(s) is None
        }),
{
    let signed = s.len() > 0 && s[0] == '+';
    let start: int = if signed {
        1
    } else {
        0
    };
    let digits = number_digits(s);
    assert(digits =~= s.skip(start));
    if s.len() > start && forall|i: int|
        start <= i < s.len() ==> '0' <= #[trigger] s[i] <= '9' {
        assert forall|i: int| 0 <= i < digits.len() implies is_digit(#[trigger] digits[i]) by {
            assert('0' <= s[i + start] <= '9');
        }
    }
    if forall|i: int| 0 <= i < digits.len() ==> is_digit(#[trigger] digits[i]) {
        assert forall|i: int| start <= i < s.len() implies '0' <= #[trigger] s[i] <= '9' by {
            assert(is_digit(digits[i - start]));
        }
    }
}

/// A number that is written is read back, with or without a plus sign.
pub proof fn law_number_round_trip(n: usize)
    ensures
        parsed_usize(decimal(n as nat)) == Some(n),
        parsed_usize(seq!['+'] + decimal(n as nat)) == Some(n),
{
    let text = decimal(n as nat);
    law_decimal_digits(n as nat, 0);
    lemma_decimal_value(n as nat);
    law_number_text(text);
    assert forall|i: int| 0 <= i < text.len() implies '0' <= #[trigger] text[i] <= '9' by {
        assert(is_digit(text[i]));
    }
    assert(text[0] != '+');
    assert(text.skip(0) =~= text);
    let plus = seq!['+'] + text;
    law_number_text(plus);
    assert(plus.skip(1) =~= text);
    assert forall|i: int| 1 <= i < plus.len() implies '0' <= #[trigger] plus[i] <= '9' by {
        assert(plus[i] == text[i - 1]);
    }
}

proof fn lemma_decimal_value(n: nat)
    ensures
        digits_value(decimal(n)) == n,
        forall|i: int| 0 <= i < decimal(n).len() ==> is_digit(#[trigger] decimal(n)[i]),
    decreases n,
{
    if n < 10 {
        reveal_with_fuel(digits_value, 2);
        assert(decimal(n).drop_last() =~= Seq::<char>::empty());
    } else {
        lemma_decimal_value(n / 10);
        assert(decimal(n).drop_last() =~= decimal(n / 10));
        assert forall|i: int| 0 <= i < decimal(n).len() implies is_digit(
            #[trigger] decimal(n)[i],
        ) by {
            if i < decimal(n / 10).len() {
                assert(is_digit(decimal(n / 10)[i]));
            }
        }
    }
}

} // verus!
