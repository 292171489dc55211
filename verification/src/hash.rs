//! The 16-bit name hash stored in every directory and file record.

use vstd::prelude::*;
use vstd::string::*;

verus! {

/// The name hash of a byte string: starting from zero, every byte turns the
/// accumulator `acc` into `acc * 3 + byte`, reduced modulo 2^16.
pub open spec fn spec_hash(bytes: Seq<u8>) -> u16
    decreases bytes.len(),
{
    if bytes.len() == 0 {
        0u16
    } else {
        ((spec_hash(bytes.drop_last()) as int * 3 + bytes.last() as int) % 0x10000) as u16
    }
}

/// The hash of a name, taken over its UTF-8 bytes.
pub open spec fn spec_name_hash(name: Seq<char>) -> u16 {
    spec_hash(vstd::utf8::encode_utf8(name))
}

/// Hashes the bytes of a name, wrapping around at 16 bits.
pub fn hash_bytes(bytes: &[u8]) -> (ret: u16)
    ensures
        ret == spec_hash(bytes@),
{
    let mut ret: u16 = 0;
    let mut i: usize = 0;
    while i < bytes.len()
        invariant
            i <= bytes.len(),
            ret == spec_hash(bytes@.take(i as int)),
        decreases bytes.len() - i,
    {
        let b: u16 = bytes[i] as u16;
        proof {
            let next = bytes@.take(i as int + 1);
            assert(next.drop_last() =~= bytes@.take(i as int));
            assert(next.last() == bytes@[i as int]);
        }
        ret = ret.wrapping_mul(3);
        ret = ret.wrapping_add(b);
        i += 1;
    }
    proof {
        assert(bytes@.take(i as int) =~= bytes@);
    }
    ret
}

/// The name hash of `str`, as written into the `hash` field of a record.
pub fn calchash(str: &str) -> (ret: u16)
    ensures
        ret == spec_name_hash(str@),
{
    hash_bytes(str.as_bytes())
}

/// The hash of the empty name is zero.
pub proof fn lemma_hash_empty()
    ensures
        spec_hash(Seq::<u8>::empty()) == 0,
        spec_name_hash(Seq::<char>::empty()) == 0,
{
    reveal_with_fuel(vstd::utf8::encode_utf8, 1);
    assert(vstd::utf8::encode_utf8(Seq::<char>::empty()) =~= Seq::<u8>::empty());
}

} // verus!
