//! Named messages and the bytes that carry them between peers.

use vstd::arithmetic::div_mod::lemma_div_denominator;
use vstd::arithmetic::power::{lemma_pow_positive, pow};
use vstd::prelude::*;
use vstd::utf8::*;

verus! {

/// A named payload, sent to peers over the reliable channel.
pub struct NetplayMessage {
    pub name: String,
    pub data: Vec<u8>,
}

/// A length as postcard writes it: seven bits to a byte, lowest first, the high bit set on every
/// byte but the last.
pub open spec fn varint(n: nat) -> Seq<u8>
    decreases n,
{
    if n < 128 {
        seq![n as u8]
    } else {
        seq![(n % 128 + 128) as u8] + varint(n / 128)
    }
}

/// The number that the low seven bits of each byte of `s` write, lowest first.
pub open spec fn varint_value(s: Seq<u8>) -> nat
    decreases s.len(),
{
    if s.len() == 0 {
        0
    } else {
        (s[0] % 128) as nat + 128 * varint_value(s.drop_first())
    }
}

/// Whether `s` is a length that postcard reads as `n`: the high bit is set on every byte but the
/// last, there are no more bytes than a `usize` needs, and the number fits into one. Bytes that
/// add nothing to the number are read over.
pub open spec fn is_varint(s: Seq<u8>, n: nat) -> bool {
    &&& s.len() > 0
    &&& forall|i: int| 0 <= i < s.len() - 1 ==> s[i] >= 128
    &&& s.last() < 128
    &&& s.len() <= (usize::BITS + 6) / 7
    &&& varint_value(s) == n
    &&& n <= usize::MAX
}

/// The bytes of a message: the length of the name in UTF-8, the name, the length of the payload,
/// the payload.
pub open spec fn message_bytes(name: Seq<char>, data: Seq<u8>) -> Seq<u8> {
    varint(encode_utf8(name).len()) + encode_utf8(name) + varint(data.len()) + data
}

/// Whether `bytes` is a message of that name and payload, followed by the bytes `rest`, with its
/// two lengths written as `a` and `b`.
pub open spec fn splits_as(
    bytes: Seq<u8>,
    name: Seq<char>,
    data: Seq<u8>,
    a: Seq<u8>,
    b: Seq<u8>,
    rest: Seq<u8>,
) -> bool {
    &&& is_varint(a, encode_utf8(name).len())
    &&& is_varint(b, data.len())
    &&& bytes == a + encode_utf8(name) + b + data + rest
}

/// Whether `bytes` begins with a message of that name and payload.
pub open spec fn reads_as(bytes: Seq<u8>, name: Seq<char>, data: Seq<u8>) -> bool {
    exists|a: Seq<u8>, b: Seq<u8>, rest: Seq<u8>| #[trigger]
        splits_as(bytes, name, data, a, b, rest)
}

/// The message at the start of `bytes`, if there is a whole one.
pub open spec fn read_message(bytes: Seq<u8>) -> Option<(Seq<char>, Seq<u8>)> {
    if exists|m: (Seq<char>, Seq<u8>)| #[trigger] reads_as(bytes, m.0, m.1) {
        Some(choose|m: (Seq<char>, Seq<u8>)| #[trigger] reads_as(bytes, m.0, m.1))
    } else {
        None
    }
}

/// Calls `postcard::to_stdvec` on the name and the payload as a pair, which postcard writes as it
/// does a struct of these two fields. Claimed: the result is the length of the name in UTF-8, the
/// name, the length of the payload and the payload, with nothing between or after them.
#[verifier::external_body]
fn to_postcard(name: &str, data: &Vec<u8>) -> (bytes: Vec<u8>)
    ensures
        bytes@ == message_bytes(name@, data@),
{
    postcard::to_stdvec(&(name, data)).unwrap()
}

/// Calls `postcard::from_bytes` for a pair of a string and a byte vector. Claimed: a pair comes
/// out exactly if the bytes begin with a message, and then it is a name and a payload that the
/// bytes begin with; what follows the message is not looked at.
#[verifier::external_body]
fn from_postcard(bytes: &Vec<u8>) -> (read: Option<(String, Vec<u8>)>)
    ensures
        match read {
            Some((name, data)) => reads_as(bytes@, name@, data@),
            None => forall|name: Seq<char>, data: Seq<u8>| !reads_as(bytes@, name, data),
        },
{
    postcard::from_bytes::<(String, Vec<u8>)>(bytes).ok()
}

proof fn lemma_append_cancel(a: Seq<u8>, x: Seq<u8>, b: Seq<u8>, y: Seq<u8>)
    requires
        a + x == b + y,
        a.len() == b.len(),
    ensures
        a == b,
        x == y,
{
    assert(a =~= (a + x).take(a.len() as int));
    assert(b =~= (b + y).take(b.len() as int));
    assert(x =~= (a + x).skip(a.len() as int));
    assert(y =~= (b + y).skip(b.len() as int));
}

/// Two lengths at the start of the same bytes are the same length.
proof fn lemma_varint_prefix_free(
    a: Seq<u8>,
    n: nat,
    x: Seq<u8>,
    b: Seq<u8>,
    m: nat,
    y: Seq<u8>,
)
    requires
        is_varint(a, n),
        is_varint(b, m),
        a + x == b + y,
    ensures
        a == b,
        n == m,
        x == y,
{
    let bytes = a + x;
    if a.len() < b.len() {
        assert(bytes[a.len() - 1] == a.last());
        assert(bytes[a.len() - 1] == b[a.len() - 1]);
    } else if b.len() < a.len() {
        assert(bytes[b.len() - 1] == b.last());
        assert(bytes[b.len() - 1] == a[b.len() - 1]);
    }
    lemma_append_cancel(a, x, b, y);
}

proof fn lemma_encode_utf8_injective(a: Seq<char>, b: Seq<char>)
    requires
        encode_utf8(a) == encode_utf8(b),
    ensures
        a == b,
{
    encode_utf8_decode_utf8(a);
    encode_utf8_decode_utf8(b);
}

proof fn lemma_split_unique(
    bytes: Seq<u8>,
    name: Seq<char>,
    data: Seq<u8>,
    a: Seq<u8>,
    b: Seq<u8>,
    rest: Seq<u8>,
    name2: Seq<char>,
    data2: Seq<u8>,
    a2: Seq<u8>,
    b2: Seq<u8>,
    rest2: Seq<u8>,
)
    requires
        splits_as(bytes, name, data, a, b, rest),
        splits_as(bytes, name2, data2, a2, b2, rest2),
    ensures
        name == name2,
        data == data2,
        a == a2,
        b == b2,
        rest == rest2,
{
    let u = encode_utf8(name);
    let u2 = encode_utf8(name2);
    assert(bytes =~= a + (u + (b + (data + rest))));
    assert(bytes =~= a2 + (u2 + (b2 + (data2 + rest2))));
    lemma_varint_prefix_free(
        a,
        u.len(),
        u + (b + (data + rest)),
        a2,
        u2.len(),
        u2 + (b2 + (data2 + rest2)),
    );
    lemma_append_cancel(u, b + (data + rest), u2, b2 + (data2 + rest2));
    lemma_encode_utf8_injective(name, name2);
    lemma_varint_prefix_free(b, data.len(), data + rest, b2, data2.len(), data2 + rest2);
    lemma_append_cancel(data, rest, data2, rest2);
}

/// No bytes begin with two different messages.
pub proof fn law_reading_is_unique(
    bytes: Seq<u8>,
    name: Seq<char>,
    data: Seq<u8>,
    name2: Seq<char>,
    data2: Seq<u8>,
)
    requires
        reads_as(bytes, name, data),
        reads_as(bytes, name2, data2),
    ensures
        name == name2,
        data == data2,
{
    let (a, b, rest) = choose|a: Seq<u8>, b: Seq<u8>, rest: Seq<u8>| #[trigger]
        splits_as(bytes, name, data, a, b, rest);
    let (a2, b2, rest2) = choose|a: Seq<u8>, b: Seq<u8>, rest: Seq<u8>| #[trigger]
        splits_as(bytes, name2, data2, a, b, rest);
    lemma_split_unique(bytes, name, data, a, b, rest, name2, data2, a2, b2, rest2);
}

pub proof fn lemma_read_message_is(bytes: Seq<u8>, name: Seq<char>, data: Seq<u8>)
    requires
        reads_as(bytes, name, data),
    ensures
        read_message(bytes) == Some((name, data)),
{
    let m = (name, data);
    assert(reads_as(bytes, m.0, m.1));
    let chosen = choose|m: (Seq<char>, Seq<u8>)| #[trigger] reads_as(bytes, m.0, m.1);
    law_reading_is_unique(bytes, name, data, chosen.0, chosen.1);
}

/// 128 to the power `k`.
spec fn pow128(k: nat) -> nat
    decreases k,
{
    if k == 0 {
        1
    } else {
        128 * pow128((k - 1) as nat)
    }
}

proof fn lemma_varint_shape(n: nat, k: nat)
    requires
        n < pow128(k),
        k > 0,
    ensures
        varint(n).len() > 0,
        varint(n).len() <= k,
        forall|i: int| 0 <= i < varint(n).len() - 1 ==> varint(n)[i] >= 128,
        varint(n).last() < 128,
        varint_value(varint(n)) == n,
    decreases k,
{
    let s = varint(n);
    if n < 128 {
        assert(s =~= seq![n as u8]);
        assert(s.drop_first() =~= Seq::<u8>::empty());
        reveal_with_fuel(varint_value, 2);
    } else {
        if k == 1 {
            reveal_with_fuel(pow128, 2);
            assert(false);
        }
        lemma_varint_shape(n / 128, (k - 1) as nat);
        let t = varint(n / 128);
        assert(s =~= seq![(n % 128 + 128) as u8] + t);
        assert(s.drop_first() =~= t);
        assert(s.last() == t.last());
        assert forall|i: int| 0 <= i < s.len() - 1 implies s[i] >= 128 by {
            if i > 0 {
                assert(s[i] == t[i - 1]);
            }
        }
    }
}

/// A length that postcard writes is one that it reads as the same number.
pub proof fn lemma_varint_is_varint(n: nat)
    requires
        n <= usize::MAX,
    ensures
        is_varint(varint(n), n),
{
    reveal_with_fuel(pow128, 11);
    if usize::BITS == 32 {
        assert(usize::MAX == 0xffff_ffff);
        lemma_varint_shape(n, 5);
    } else {
        lemma_varint_shape(n, 10);
    }
}

/// Reading what was written gives the message back, whatever follows it.
pub proof fn law_message_round_trip(name: Seq<char>, data: Seq<u8>, rest: Seq<u8>)
    requires
        encode_utf8(name).len() <= usize::MAX,
        data.len() <= usize::MAX,
    ensures
        read_message(message_bytes(name, data) + rest) == Some((name, data)),
{
    let bytes = message_bytes(name, data) + rest;
    let a = varint(encode_utf8(name).len());
    let b = varint(data.len());
    lemma_varint_is_varint(encode_utf8(name).len());
    lemma_varint_is_varint(data.len());
    assert(splits_as(bytes, name, data, a, b, rest));
    lemma_read_message_is(bytes, name, data);
}

/// As long as the last byte of a message has not come, there is no message to read.
pub proof fn law_incomplete_message_unreadable(name: Seq<char>, data: Seq<u8>, k: int)
    requires
        encode_utf8(name).len() <= usize::MAX,
        data.len() <= usize::MAX,
        0 <= k < message_bytes(name, data).len(),
    ensures
        read_message(message_bytes(name, data).take(k)) is None,
{
    let bytes = message_bytes(name, data);
    let start = bytes.take(k);
    let a = varint(encode_utf8(name).len());
    let b = varint(data.len());
    lemma_varint_is_varint(encode_utf8(name).len());
    lemma_varint_is_varint(data.len());
    assert(splits_as(bytes, name, data, a, b, Seq::empty())) by {
        assert(bytes =~= a + encode_utf8(name) + b + data + Seq::<u8>::empty());
    }
    if exists|m: (Seq<char>, Seq<u8>)| #[trigger] reads_as(start, m.0, m.1) {
        let m = choose|m: (Seq<char>, Seq<u8>)| #[trigger] reads_as(start, m.0, m.1);
        let (a2, b2, rest) = choose|a: Seq<u8>, b: Seq<u8>, rest: Seq<u8>| #[trigger]
            splits_as(start, m.0, m.1, a, b, rest);
        assert(bytes =~= start + bytes.skip(k));
        assert(splits_as(bytes, m.0, m.1, a2, b2, rest + bytes.skip(k))) by {
            assert(bytes =~= a2 + encode_utf8(m.0) + b2 + m.1 + (rest + bytes.skip(k)));
        }
        lemma_split_unique(
            bytes,
            name,
            data,
            a,
            b,
            Seq::empty(),
            m.0,
            m.1,
            a2,
            b2,
            rest + bytes.skip(k),
        );
        assert((rest + bytes.skip(k)).len() > 0);
        assert(false);
    }
}

impl NetplayMessage {
    /// The bytes that carry this message.
    pub fn encode(&self) -> (bytes: Vec<u8>)
        ensures
            bytes@ == message_bytes(self.name@, self.data@),
    {
        to_postcard(self.name.as_str(), &self.data)
    }

    /// The message at the start of `bytes`; `None` if no whole message is there.
    pub fn decode(bytes: &Vec<u8>) -> (message: Option<NetplayMessage>)
        ensures
            message is Some <==> read_message(bytes@) is Some,
            message matches Some(m) ==> read_message(bytes@) == Some((m.name@, m.data@)),
    {
        match from_postcard(bytes) {
            Some((name, data)) => {
                proof {
                    lemma_read_message_is(bytes@, name@, data@);
                }
                Some(NetplayMessage { name, data })
            },
            None => None,
        }
    }
}

/// Reading finds exactly the message that the bytes begin with.
pub proof fn law_read_is_what_is_there(bytes: Seq<u8>, name: Seq<char>, data: Seq<u8>)
    ensures
        read_message(bytes) == Some((name, data)) <==> reads_as(bytes, name, data),
{
    if reads_as(bytes, name, data) {
        lemma_read_message_is(bytes, name, data);
    }
    if read_message(bytes) == Some((name, data)) {
        let m = choose|m: (Seq<char>, Seq<u8>)| #[trigger] reads_as(bytes, m.0, m.1);
        assert(reads_as(bytes, m.0, m.1));
    }
}

/// A length is written in as many bytes as it needs, each of them seven bits of its place, lowest
/// first, and marked if more follow.
pub proof fn law_length_digits(n: nat, i: int)
    ensures
        varint(n).len() > 0,
        n < pow(128, varint(n).len()),
        varint(n).len() > 1 ==> pow(128, (varint(n).len() - 1) as nat) <= n,
        0 <= i < varint(n).len() ==> varint(n)[i] == (n as int / pow(128, i as nat)) % 128 + (
        if i < varint(n).len() - 1 {
            128int
        } else {
            0int
        }),
    decreases n,
{
    reveal(pow);
    let s = varint(n);
    assert(pow(128, 0) == 1);
    if n < 128 {
        reveal_with_fuel(pow, 2);
    } else {
        let t = varint(n / 128);
        law_length_digits(n / 128, i - 1);
        assert(s.len() == t.len() + 1);
        assert(pow(128, s.len()) == 128 * pow(128, t.len()));
        assert(pow(128, t.len()) == 128 * pow(128, (t.len() - 1) as nat));
        if 0 < i < s.len() {
            let e = (i - 1) as nat;
            lemma_pow_positive(128, e);
            lemma_div_denominator(n as int, 128, pow(128, e));
            assert(pow(128, i as nat) == 128 * pow(128, e));
            assert(s[i] == t[i - 1]);
        }
    }
}

/// A message is laid out as the length of its name, its name, the length of its payload and its
/// payload, with nothing between or after them.
pub proof fn law_message_layout(name: Seq<char>, data: Seq<u8>)
    ensures
        ({
            let bytes = message_bytes(name, data);
            let first = varint(encode_utf8(name).len());
            let second = varint(data.len());
            let named = (first.len() + encode_utf8(name).len()) as int;
            &&& bytes.len() == named + second.len() + data.len()
            &&& bytes.take(first.len() as int) == first
            &&& bytes.subrange(first.len() as int, named) == encode_utf8(name)
            &&& bytes.subrange(named, named + second.len()) == second
            &&& bytes.skip(named + second.len()) == data
        }),
{
    let bytes = message_bytes(name, data);
    let first = varint(encode_utf8(name).len());
    let second = varint(data.len());
    let named = (first.len() + encode_utf8(name).len()) as int;
    assert(bytes.take(first.len() as int) =~= first);
    assert(bytes.subrange(first.len() as int, named) =~= encode_utf8(name));
    assert(bytes.subrange(named, named + second.len()) =~= second);
    assert(bytes.skip(named + second.len()) =~= data);
}

} // verus!
