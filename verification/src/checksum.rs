//! The checksum by which the machines of a session compare their states.

use crate::bytes::{
    be_bytes, be_to_u128, be_value, law_big_endian_parts, law_big_endian_round_trip,
    lemma_be_bytes_len, lemma_pow256_values, u64_to_be,
};
use sha2::digest::Digest;
use vstd::arithmetic::power::pow;
use vstd::prelude::*;

verus! {

/// The SHA-256 digest of a byte string.
pub uninterp spec fn sha256(data: Seq<u8>) -> Seq<u8>;

/// Calls `sha2::Sha256::digest`. Claimed: the digest depends on the bytes alone and is 32 bytes
/// long.
#[verifier::external_body]
fn sha256_digest(data: &Vec<u8>) -> (digest: Vec<u8>)
    ensures
        digest@ == sha256(data@),
        digest@.len() == 32,
{
    sha2::Sha256::digest(data).to_vec()
}

/// The registers in eight big-endian bytes each.
pub open spec fn register_bytes(registers: Seq<u64>) -> Seq<u8>
    decreases registers.len(),
{
    if registers.len() == 0 {
        Seq::empty()
    } else {
        register_bytes(registers.drop_last()) + be_bytes(registers.last() as nat, 8)
    }
}

/// The checksum that a digest gives: its first sixteen bytes, most significant first.
pub open spec fn digest_checksum(digest: Seq<u8>) -> nat {
    be_value(digest.take(16))
}

/// The checksum of the state of the machine, taken over its coprocessor registers.
pub fn state_checksum(registers: &[u64]) -> (checksum: u128)
    ensures
        checksum == digest_checksum(sha256(register_bytes(registers@))),
        exists|data: Seq<u8>|
            {
                &&& data.len() == 8 * registers@.len()
                &&& forall|i: int|
                    0 <= i < registers@.len() ==> be_value(data.subrange(8 * i, 8 * i + 8))
                        == #[trigger] registers@[i]
                &&& checksum == be_value((#[trigger] sha256(data)).take(16))
            },
{
    let mut data: Vec<u8> = Vec::new();
    let mut i: usize = 0;
    assert(data@ =~= register_bytes(registers@.take(0)));
    while i < registers.len()
        invariant
            i <= registers@.len(),
            data@ == register_bytes(registers@.take(i as int)),
        decreases registers@.len() - i,
    {
        let mut bytes = u64_to_be(registers[i]);
        data.append(&mut bytes);
        i = i + 1;
        assert(registers@.take(i as int).drop_last() =~= registers@.take(i - 1));
    }
    assert(registers@.take(i as int) =~= registers@);
    let digest = sha256_digest(&data);
    proof {
        law_every_register_is_hashed(registers@);
        assert(sha256(data@) == digest@);
    }
    be_to_u128(digest.as_slice())
}

/// Every register is hashed, in its own eight bytes, and nothing else is.
pub proof fn law_every_register_is_hashed(registers: Seq<u64>)
    ensures
        register_bytes(registers).len() == 8 * registers.len(),
        forall|i: int|
            0 <= i < registers.len() ==> register_bytes(registers).subrange(8 * i, 8 * i + 8)
                == be_bytes((#[trigger] registers[i]) as nat, 8),
        forall|i: int|
            0 <= i < registers.len() ==> be_value(
                register_bytes(registers).subrange(8 * i, 8 * i + 8),
            ) == #[trigger] registers[i],
    decreases registers.len(),
{
    let all = register_bytes(registers);
    lemma_pow256_values();
    if registers.len() > 0 {
        let before = registers.drop_last();
        let last = registers.len() - 1;
        law_every_register_is_hashed(before);
        lemma_be_bytes_len(registers.last() as nat, 8);
        assert forall|i: int| 0 <= i < registers.len() implies all.subrange(8 * i, 8 * i + 8)
            == be_bytes((#[trigger] registers[i]) as nat, 8) by {
            if i < last {
                assert(all.subrange(8 * i, 8 * i + 8) =~= register_bytes(before).subrange(
                    8 * i,
                    8 * i + 8,
                ));
                assert(before[i] == registers[i]);
            } else {
                assert(all.subrange(8 * i, 8 * i + 8) =~= be_bytes(registers.last() as nat, 8));
            }
        }
        assert forall|i: int| 0 <= i < registers.len() implies be_value(
            all.subrange(8 * i, 8 * i + 8),
        ) == #[trigger] registers[i] by {
            law_big_endian_round_trip(registers[i] as nat, 8);
        }
    }
}

/// Machines whose registers differ anywhere hash different bytes.
pub proof fn law_registers_told_apart(a: Seq<u64>, b: Seq<u64>)
    requires
        register_bytes(a) == register_bytes(b),
    ensures
        a == b,
{
    law_every_register_is_hashed(a);
    law_every_register_is_hashed(b);
    assert forall|i: int| 0 <= i < a.len() implies a[i] == b[i] by {
        let x = a[i];
        let y = b[i];
    }
    assert(a =~= b);
}

/// The checksum is the upper half of a digest: with the lower half it makes up the whole.
pub proof fn law_checksum_is_upper_half(digest: Seq<u8>)
    requires
        digest.len() == 32,
    ensures
        be_value(digest) == digest_checksum(digest) * pow(256, 16) + be_value(digest.skip(16)),
{
    law_big_endian_parts(digest.take(16), digest.skip(16), 0);
    assert(digest =~= digest.take(16) + digest.skip(16));
}

} // verus!
