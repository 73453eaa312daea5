//! Big-endian integers and the cutting of byte strings into pieces.

use vstd::arithmetic::div_mod::lemma_div_denominator;
use vstd::arithmetic::power::{lemma_pow_positive, pow};
use vstd::prelude::*;

verus! {

/// The `len` low base-256 digits of `n`, most significant first.
pub open spec fn be_bytes(n: nat, len: nat) -> Seq<u8>
    decreases len,
{
    if len == 0 {
        Seq::empty()
    } else {
        be_bytes(n / 256, (len - 1) as nat).push((n % 256) as u8)
    }
}

/// The number whose base-256 digits are `s`, most significant first.
pub open spec fn be_value(s: Seq<u8>) -> nat
    decreases s.len(),
{
    if s.len() == 0 {
        0
    } else {
        be_value(s.drop_last()) * 256 + s.last() as nat
    }
}

/// 256 to the power `k`.
pub open spec fn pow256(k: nat) -> nat
    decreases k,
{
    if k == 0 {
        1
    } else {
        256 * pow256((k - 1) as nat)
    }
}

/// The two's complement of a 64-bit integer, read as an unsigned number.
pub open spec fn twos_complement(x: i64) -> nat {
    if x < 0 {
        (x + 0x1_0000_0000_0000_0000) as nat
    } else {
        x as nat
    }
}

/// The byte strings that a vector of byte vectors holds.
pub open spec fn byte_strings(v: Seq<Vec<u8>>) -> Seq<Seq<u8>> {
    v.map_values(|b: Vec<u8>| b@)
}

/// `data` cut into pieces of `size` bytes, the last one holding what is left.
pub open spec fn pieces(data: Seq<u8>, size: nat) -> Seq<Seq<u8>>
    decreases data.len(),
{
    if data.len() == 0 || size == 0 {
        Seq::empty()
    } else if data.len() <= size {
        seq![data]
    } else {
        seq![data.take(size as int)] + pieces(data.skip(size as int), size)
    }
}

/// The byte strings of `parts` one after another.
pub open spec fn joined(parts: Seq<Seq<u8>>) -> Seq<u8>
    decreases parts.len(),
{
    if parts.len() == 0 {
        Seq::empty()
    } else {
        joined(parts.drop_last()) + parts.last()
    }
}

/// A byte string has a value below 256 to the power of its length.
pub proof fn lemma_be_value_bound(s: Seq<u8>)
    ensures
        be_value(s) < pow256(s.len()),
    decreases s.len(),
{
    if s.len() > 0 {
        lemma_be_value_bound(s.drop_last());
    }
}

pub proof fn lemma_pow256_values()
    ensures
        pow256(8) == 0x1_0000_0000_0000_0000,
        pow256(16) == 0x1_0000_0000_0000_0000 * 0x1_0000_0000_0000_0000,
{
    reveal_with_fuel(pow256, 17);
}

pub proof fn lemma_pow256_monotone(j: nat, k: nat)
    requires
        j <= k,
    ensures
        pow256(j) <= pow256(k),
        1 <= pow256(j),
    decreases k + j,
{
    if j < k {
        lemma_pow256_monotone(j, (k - 1) as nat);
    } else if j > 0 {
        lemma_pow256_monotone((j - 1) as nat, (k - 1) as nat);
    }
}

/// Reading the digits of a number that fits gives the number back.
pub proof fn law_big_endian_round_trip(n: nat, len: nat)
    requires
        n < pow256(len),
    ensures
        be_bytes(n, len).len() == len,
        be_value(be_bytes(n, len)) == n,
    decreases len,
{
    if len > 0 {
        law_big_endian_round_trip(n / 256, (len - 1) as nat);
        assert(be_bytes(n, len).drop_last() =~= be_bytes(n / 256, (len - 1) as nat));
    }
}

/// Writing the value of a byte string in as many digits gives the byte string back.
pub proof fn law_big_endian_rewrite(s: Seq<u8>)
    ensures
        be_bytes(be_value(s), s.len()) == s,
    decreases s.len(),
{
    if s.len() > 0 {
        law_big_endian_rewrite(s.drop_last());
        assert(s =~= s.drop_last().push(s.last()));
    }
}

pub proof fn lemma_be_bytes_len(n: nat, len: nat)
    ensures
        be_bytes(n, len).len() == len,
    decreases len,
{
    if len > 0 {
        lemma_be_bytes_len(n / 256, (len - 1) as nat);
    }
}

/// The pieces of a byte string, put together again, are the byte string.
pub proof fn law_pieces_join(data: Seq<u8>, size: nat)
    requires
        size > 0,
    ensures
        joined(pieces(data, size)) == data,
    decreases data.len(),
{
    if data.len() == 0 {
    } else if data.len() <= size {
        reveal_with_fuel(joined, 2);
        assert(seq![data].drop_last() =~= Seq::<Seq<u8>>::empty());
        assert(joined(seq![data]) =~= data);
    } else {
        let head = data.take(size as int);
        let tail = data.skip(size as int);
        law_pieces_join(tail, size);
        lemma_joined_cons(head, pieces(tail, size));
        assert(head + tail =~= data);
    }
}

/// Every piece is full but the last, which holds at least one byte and no more than the others.
pub proof fn law_piece_sizes(data: Seq<u8>, size: nat)
    requires
        size > 0,
    ensures
        forall|i: int| #![auto]
            0 <= i < pieces(data, size).len() - 1 ==> pieces(data, size)[i].len() == size,
        data.len() > 0 ==> pieces(data, size).len() > 0 && 0 < pieces(data, size).last().len()
            <= size,
        data.len() == 0 ==> pieces(data, size).len() == 0,
    decreases data.len(),
{
    if data.len() > size {
        let tail = data.skip(size as int);
        law_piece_sizes(tail, size);
        let rest = pieces(tail, size);
        let all = pieces(data, size);
        assert(all =~= seq![data.take(size as int)] + rest);
        assert(all.last() == rest.last());
        assert forall|i: int| 0 <= i < all.len() - 1 implies #[trigger] all[i].len() == size by {
            if i > 0 {
                assert(all[i] == rest[i - 1]);
            }
        }
    }
}

pub proof fn lemma_joined_cons(head: Seq<u8>, rest: Seq<Seq<u8>>)
    ensures
        joined(seq![head] + rest) == head + joined(rest),
    decreases rest.len(),
{
    let all = seq![head] + rest;
    if rest.len() == 0 {
        reveal_with_fuel(joined, 2);
        assert(all.drop_last() =~= Seq::<Seq<u8>>::empty());
        assert(joined(all) =~= head + joined(rest));
    } else {
        lemma_joined_cons(head, rest.drop_last());
        assert(all.drop_last() =~= seq![head] + rest.drop_last());
        assert(joined(all) =~= head + joined(rest));
    }
}

/// The big-endian bytes of a 64-bit number.
pub fn u64_to_be(n: u64) -> (out: Vec<u8>)
    ensures
        out@ == be_bytes(n as nat, 8),
        out@.len() == 8,
        n == out@[0] * 0x100000000000000 + out@[1] * 0x1000000000000 + out@[2] * 0x10000000000
            + out@[3] * 0x100000000 + out@[4] * 0x1000000 + out@[5] * 0x10000 + out@[6] * 0x100
            + out@[7],
{
    let mut rest: u64 = n;
    let mut k: usize = 8;
    let mut tail: Vec<u8> = vec![0u8; 8];
    while k > 0
        invariant
            k <= 8,
            tail@.len() == 8,
            be_bytes(n as nat, 8) == be_bytes(rest as nat, k as nat) + tail@.skip(k as int),
        decreases k,
    {
        let ghost before = tail@;
        k = k - 1;
        tail.set(k, (rest % 256) as u8);
        assert(tail@.skip(k as int) =~= seq![(rest % 256) as u8] + before.skip(k + 1));
        assert(be_bytes(rest as nat, (k
            + 1) as nat) == be_bytes((rest / 256) as nat, k as nat).push(
            (rest % 256) as u8,
        ));
        assert(be_bytes((rest / 256) as nat, k as nat) + tail@.skip(k as int) =~= be_bytes(
            rest as nat,
            (k + 1) as nat,
        ) + before.skip(k + 1));
        rest = rest / 256;
    }
    assert(tail@.skip(0) =~= tail@);
    assert(be_bytes(rest as nat, 0) + tail@ =~= tail@);
    proof {
        lemma_pow256_values();
        law_big_endian_round_trip(n as nat, 8);
        law_eight_digits(tail@);
    }
    tail
}

/// The 64-bit number that eight big-endian bytes write.
pub fn be_to_u64(data: &[u8]) -> (n: u64)
    requires
        data@.len() == 8,
    ensures
        n == be_value(data@),
        n == data@[0] * 0x100000000000000 + data@[1] * 0x1000000000000 + data@[2] * 0x10000000000
            + data@[3] * 0x100000000 + data@[4] * 0x1000000 + data@[5] * 0x10000
            + data@[6] * 0x100 + data@[7],
{
    proof {
        law_eight_digits(data@);
    }
    let mut n: u64 = 0;
    let mut i: usize = 0;
    while i < 8
        invariant
            i <= 8,
            data@.len() == 8,
            n == be_value(data@.take(i as int)),
        decreases 8 - i,
    {
        assert(data@.take(i + 1).drop_last() =~= data@.take(i as int));
        proof {
            lemma_be_value_bound(data@.take(i + 1));
            lemma_pow256_monotone((i + 1) as nat, 8);
            lemma_pow256_values();
        }
        n = n * 256 + data[i] as u64;
        i = i + 1;
    }
    assert(data@.take(8) =~= data@);
    n
}

/// The 128-bit number that the first sixteen bytes of `data` write, most significant byte first.
pub fn be_to_u128(data: &[u8]) -> (n: u128)
    requires
        data@.len() >= 16,
    ensures
        n == be_value(data@.take(16)),
        n == data@[0] * 0x1000000000000000000000000000000
            + data@[1] * 0x10000000000000000000000000000
            + data@[2] * 0x100000000000000000000000000 + data@[3] * 0x1000000000000000000000000
            + data@[4] * 0x10000000000000000000000 + data@[5] * 0x100000000000000000000
            + data@[6] * 0x1000000000000000000 + data@[7] * 0x10000000000000000
            + data@[8] * 0x100000000000000 + data@[9] * 0x1000000000000
            + data@[10] * 0x10000000000 + data@[11] * 0x100000000 + data@[12] * 0x1000000
            + data@[13] * 0x10000 + data@[14] * 0x100 + data@[15],
{
    proof {
        law_sixteen_digits(data@.take(16));
    }
    let mut n: u128 = 0;
    let mut i: usize = 0;
    while i < 16
        invariant
            i <= 16,
            data@.len() >= 16,
            n == be_value(data@.take(i as int)),
        decreases 16 - i,
    {
        assert(data@.take(i + 1).drop_last() =~= data@.take(i as int));
        proof {
            lemma_be_value_bound(data@.take(i + 1));
            lemma_pow256_monotone((i + 1) as nat, 16);
            lemma_pow256_values();
        }
        n = n * 256 + data[i] as u128;
        i = i + 1;
    }
    n
}

/// The big-endian two's complement bytes of a signed 64-bit number.
pub fn i64_to_be(x: i64) -> (out: Vec<u8>)
    ensures
        out@ == be_bytes(twos_complement(x), 8),
        out@.len() == 8,
        x == (if out@[0] >= 128 { out@[0] - 256 } else { out@[0] as int }) * 0x100000000000000
            + out@[1] * 0x1000000000000 + out@[2] * 0x10000000000 + out@[3] * 0x100000000
            + out@[4] * 0x1000000 + out@[5] * 0x10000 + out@[6] * 0x100 + out@[7],
{
    let n: u64 = x as u64;
    assert(x >= 0 ==> (x as u64) == x) by (bit_vector);
    assert(x < 0 ==> (x as u64) == x + 0x1_0000_0000_0000_0000) by (bit_vector);
    u64_to_be(n)
}

/// The signed 64-bit number that eight big-endian two's complement bytes write.
pub fn be_to_i64(data: &[u8]) -> (x: i64)
    requires
        data@.len() == 8,
    ensures
        twos_complement(x) == be_value(data@),
        x == (if data@[0] >= 128 { data@[0] - 256 } else { data@[0] as int }) * 0x100000000000000
            + data@[1] * 0x1000000000000 + data@[2] * 0x10000000000 + data@[3] * 0x100000000
            + data@[4] * 0x1000000 + data@[5] * 0x10000 + data@[6] * 0x100 + data@[7],
{
    let n: u64 = be_to_u64(data);
    let x: i64 = n as i64;
    assert(n <= 0x7fff_ffff_ffff_ffff ==> (n as i64) == n) by (bit_vector);
    assert(n > 0x7fff_ffff_ffff_ffff ==> (n as i64)
        + 0x1_0000_0000_0000_0000 == n && (n as i64) < 0) by (bit_vector);
    x
}

/// The bytes `from..to` of `data`.
pub fn slice_of(data: &Vec<u8>, from: usize, to: usize) -> (out: Vec<u8>)
    requires
        from <= to <= data@.len(),
    ensures
        out@ == data@.subrange(from as int, to as int),
        out@.len() == to - from,
        forall|i: int| 0 <= i < to - from ==> #[trigger] out@[i] == data@[from + i],
{
    let mut out: Vec<u8> = Vec::with_capacity(to - from);
    let mut i: usize = from;
    while i < to
        invariant
            from <= i <= to <= data@.len(),
            out@ == data@.subrange(from as int, i as int),
        decreases to - i,
    {
        out.push(data[i]);
        i = i + 1;
    }
    out
}

/// Cuts `data` into pieces of `size` bytes.
pub fn cut(data: &Vec<u8>, size: usize) -> (out: Vec<Vec<u8>>)
    requires
        size > 0,
    ensures
        byte_strings(out@) == pieces(data@, size as nat),
        out@.len() == (data@.len() + size - 1) / (size as int),
        forall|i: int|
            0 <= i < out@.len() ==> (#[trigger] out@[i])@ == data@.subrange(
                i * size,
                if (i + 1) * size <= data@.len() {
                    (i + 1) * size
                } else {
                    data@.len() as int
                },
            ),
{
    let mut out: Vec<Vec<u8>> = Vec::new();
    let mut from: usize = 0;
    assert(data@.skip(0) =~= data@);
    while from < data.len()
        invariant
            size > 0,
            from <= data@.len(),
            byte_strings(out@) + pieces(data@.skip(from as int), size as nat) == pieces(
                data@,
                size as nat,
            ),
        decreases data@.len() - from,
    {
        let ghost rest = data@.skip(from as int);
        let ghost done = out@;
        let to: usize = if data.len() - from <= size {
            data.len()
        } else {
            from + size
        };
        let piece = slice_of(data, from, to);
        assert(piece@ =~= if rest.len() <= size {
            rest
        } else {
            rest.take(size as int)
        });
        assert(rest.skip(to - from) =~= data@.skip(to as int));
        out.push(piece);
        assert(byte_strings(out@) =~= byte_strings(done).push(piece@));
        assert(byte_strings(out@) + pieces(data@.skip(to as int), size as nat) =~= byte_strings(
            done,
        ) + pieces(rest, size as nat));
        from = to;
    }
    assert(byte_strings(out@) + Seq::<Seq<u8>>::empty() =~= byte_strings(out@));
    proof {
        law_pieces_in_place(data@, size as nat);
        assert forall|i: int| 0 <= i < out@.len() implies (#[trigger] out@[i])@ == data@.subrange(
            i * size,
            if (i + 1) * size <= data@.len() {
                (i + 1) * size
            } else {
                data@.len() as int
            },
        ) by {
            assert(byte_strings(out@)[i] == out@[i]@);
        }
    }
    out
}

/// The value of a byte string is that of its first part, moved up by the length of the second, and
/// that of the second; a single byte is its own value.
pub proof fn law_big_endian_parts(s: Seq<u8>, t: Seq<u8>, b: u8)
    ensures
        be_value(Seq::empty()) == 0,
        be_value(seq![b]) == b,
        be_value(s + t) == be_value(s) * pow(256, t.len()) + be_value(t),
    decreases t.len(),
{
    reveal_with_fuel(be_value, 2);
    assert(seq![b].drop_last() =~= Seq::<u8>::empty());
    reveal(pow);
    if t.len() == 0 {
        assert(s + t =~= s);
        assert(t =~= Seq::empty());
    } else {
        let front = t.drop_last();
        law_big_endian_parts(s, front, b);
        assert((s + t).drop_last() =~= s + front);
        let v = be_value(s) as int;
        let p = pow(256, front.len());
        assert((v * p) * 256 == v * (256 * p)) by (nonlinear_arith);
    }
}

/// Each byte of a number is the digit of its place.
pub proof fn law_big_endian_digits(n: nat, len: nat, i: int)
    requires
        0 <= i < len,
    ensures
        be_bytes(n, len).len() == len,
        be_bytes(n, len)[i] == (n as int / pow(256, (len - 1 - i) as nat)) % 256,
    decreases len,
{
    lemma_be_bytes_len(n, len);
    lemma_be_bytes_len(n / 256, (len - 1) as nat);
    reveal(pow);
    if i < len - 1 {
        law_big_endian_digits(n / 256, (len - 1) as nat, i);
        let e = (len - 2 - i) as nat;
        lemma_pow_positive(256, e);
        lemma_div_denominator(n as int, 256, pow(256, e));
        assert(pow(256, (len - 1 - i) as nat) == 256 * pow(256, e));
    }
}

/// The value of eight bytes, place by place.
pub proof fn law_eight_digits(s: Seq<u8>)
    requires
        s.len() == 8,
    ensures
        be_value(s) == s[0] * 0x100000000000000 + s[1] * 0x1000000000000 + s[2] * 0x10000000000
            + s[3] * 0x100000000 + s[4] * 0x1000000 + s[5] * 0x10000 + s[6] * 0x100 + s[7],
{
    reveal_with_fuel(be_value, 9);
}

/// The value of sixteen bytes, place by place.
pub proof fn law_sixteen_digits(s: Seq<u8>)
    requires
        s.len() == 16,
    ensures
        be_value(s) == s[0] * 0x1000000000000000000000000000000
            + s[1] * 0x10000000000000000000000000000 + s[2] * 0x100000000000000000000000000
            + s[3] * 0x1000000000000000000000000 + s[4] * 0x10000000000000000000000
            + s[5] * 0x100000000000000000000 + s[6] * 0x1000000000000000000
            + s[7] * 0x10000000000000000 + s[8] * 0x100000000000000 + s[9] * 0x1000000000000
            + s[10] * 0x10000000000 + s[11] * 0x100000000 + s[12] * 0x1000000 + s[13] * 0x10000
            + s[14] * 0x100 + s[15],
{
    law_big_endian_parts(s.take(8), s.skip(8), 0);
    assert(s =~= s.take(8) + s.skip(8));
    law_eight_digits(s.take(8));
    law_eight_digits(s.skip(8));
    assert(pow(256, 8) == 0x1_0000_0000_0000_0000) by {
        reveal_with_fuel(pow, 9);
    }
    let high = be_value(s.take(8)) as int;
    assert(high * pow(256, 8) == high * 0x1_0000_0000_0000_0000);
}

/// The two's complement of a number is the number itself or the number and two to the 64th, no
/// two numbers have the same, and its first byte tells the sign.
pub proof fn law_twos_complement(x: i64, y: i64)
    ensures
        x >= 0 ==> twos_complement(x) == x,
        x < 0 ==> twos_complement(x) == x + 0x1_0000_0000_0000_0000,
        twos_complement(x) == twos_complement(y) ==> x == y,
{
}

/// Byte strings are told by the vectors that hold them, one by one.
pub proof fn law_byte_strings(v: Seq<Vec<u8>>)
    ensures
        byte_strings(v).len() == v.len(),
        forall|i: int| 0 <= i < v.len() ==> #[trigger] byte_strings(v)[i] == v[i]@,
{
}

/// Joining is putting one after another.
pub proof fn law_joined_is_flat(parts: Seq<Seq<u8>>)
    ensures
        joined(parts) == parts.flatten(),
    decreases parts.len(),
{
    parts.lemma_flatten_and_flatten_alt_are_equivalent();
    if parts.len() > 0 {
        law_joined_is_flat(parts.drop_last());
        parts.drop_last().lemma_flatten_and_flatten_alt_are_equivalent();
    }
}

/// Every piece is the bytes at its place, and there are as many as the bytes fill.
pub proof fn law_pieces_in_place(data: Seq<u8>, size: nat)
    requires
        size > 0,
    ensures
        pieces(data, size).len() == (data.len() + size - 1) / (size as int),
        forall|i: int|
            0 <= i < pieces(data, size).len() ==> #[trigger] pieces(data, size)[i] == data.subrange(
                i * size,
                if (i + 1) * size <= data.len() {
                    (i + 1) * size
                } else {
                    data.len() as int
                },
            ),
    decreases data.len(),
{
    let all = pieces(data, size);
    let n = data.len() as int;
    let k = size as int;
    if n == 0 {
        assert((k - 1) / k == 0) by (nonlinear_arith)
            requires
                k > 0,
        ;
    } else if n <= k {
        assert((n + k - 1) / k == 1) by (nonlinear_arith)
            requires
                0 < n <= k,
        ;
        assert(all[0] =~= data.subrange(0, n));
        assert forall|i: int| 0 <= i < all.len() implies #[trigger] all[i] == data.subrange(
            i * size,
            if (i + 1) * size <= data.len() {
                (i + 1) * size
            } else {
                data.len() as int
            },
        ) by {
            assert(i == 0);
            assert(0 * k == 0 && (0 + 1) * k == k);
        }
    } else {
        let tail = data.skip(k);
        let rest = pieces(tail, size);
        law_pieces_in_place(tail, size);
        assert(all =~= seq![data.take(k)] + rest);
        assert((n + k - 1) / k == (n - k + k - 1) / k + 1) by (nonlinear_arith)
            requires
                k > 0,
        ;
        assert forall|i: int| 0 <= i < all.len() implies #[trigger] all[i] == data.subrange(
            i * size,
            if (i + 1) * size <= data.len() {
                (i + 1) * size
            } else {
                data.len() as int
            },
        ) by {
            assert((i + 1) * k == i * k + k) by (nonlinear_arith);
            assert((i - 1) * k == i * k - k) by (nonlinear_arith);
            if i == 0 {
                assert(all[0] =~= data.subrange(0, k));
            } else {
                assert(all[i] == rest[i - 1]);
                assert((i - 1) * k >= 0) by (nonlinear_arith)
                    requires
                        i >= 1,
                        k > 0,
                ;
                assert(((i - 1) + 1) * k == i * k);
                lemma_piece_starts_inside(tail.len() as int, k, i - 1);
                assert(all[i] =~= data.subrange(
                    i * k,
                    if (i + 1) * k <= n {
                        (i + 1) * k
                    } else {
                        n
                    },
                ));
            }
        }
    }
}

/// A piece starts before the end.
proof fn lemma_piece_starts_inside(n: int, k: int, i: int)
    requires
        n >= 0,
        k > 0,
        0 <= i < (n + k - 1) / k,
    ensures
        i * k < n,
{
    assert(i * k < n) by (nonlinear_arith)
        requires
            k > 0,
            0 <= i < (n + k - 1) / k,
    ;
}

} // verus!
