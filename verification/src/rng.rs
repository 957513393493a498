//! The outside sources of randomness: the seeded xorshift generator from
//! `rand_xorshift`, and operating-system entropy from `getrandom`.

use vstd::prelude::*;
use rand_xorshift::XorShiftRng;
use rand::RngCore;
use rand::SeedableRng;

verus! {

/// The xorshift generator of `rand_xorshift`, carried opaquely.
#[verifier::external_type_specification]
#[verifier::external_body]
pub struct ExXorShiftRng(XorShiftRng);

/// `XorShiftRng::from_seed`: a generator seeded with the given 16 bytes. The
/// generator's state is private to `rand_xorshift` and opaque here, so nothing is
/// stated of it; the library only draws numbers from it.
#[verifier::external_body]
pub(crate) fn xorshift_from_seed(seed: [u8; 16]) -> (r: XorShiftRng) {
    XorShiftRng::from_seed(seed)
}

/// `RngCore::next_u64` on the xorshift generator: advances it and returns the next
/// output. The output is a function of the generator's state, which is opaque here,
/// so any `u64` may come back as far as the contract says; the library's uses (tie
/// breaking, playouts, hash keys) are correct for every value.
#[verifier::external_body]
pub(crate) fn next_u64(rng: &mut XorShiftRng) -> (r: u64) {
    rng.next_u64()
}

/// The first `n` bytes with which `rand_xorshift`'s generator, seeded with the 16 bytes
/// `seed`, fills a buffer.
pub uninterp spec fn xorshift_bytes(seed: Seq<u8>, n: nat) -> Seq<u8>;

/// `XorShiftRng::from_seed(seed)` followed by `RngCore::fill_bytes` on a fresh buffer
/// of `n` bytes: the buffer. What the generator writes is a function of the seed
/// alone, named `xorshift_bytes`; its values are not stated. (For a length that is a
/// multiple of 8, `fill_bytes` writes the little-endian bytes of successive
/// `next_u64` outputs.)
#[verifier::external_body]
pub(crate) fn xorshift_fill(seed: [u8; 16], n: usize) -> (r: Vec<u8>)
    ensures
        r@ == xorshift_bytes(seed@, n as nat),
        r.len() == n,
{
    let mut rng = XorShiftRng::from_seed(seed);
    let mut buf = vec![0u8; n];
    rng.fill_bytes(&mut buf);
    buf
}

/// The little-endian number that the 8 bytes of `b` from index `i` spell.
pub open spec fn le_u64_at(b: Seq<u8>, i: int) -> u64 {
    (b[i] as u64) | ((b[i + 1] as u64) << 8u64) | ((b[i + 2] as u64) << 16u64) | ((b[i + 3] as u64)
        << 24u64) | ((b[i + 4] as u64) << 32u64) | ((b[i + 5] as u64) << 40u64) | ((b[i + 6] as u64)
        << 48u64) | ((b[i + 7] as u64) << 56u64)
}

/// The little-endian number that the 8 bytes of `b` from index `i` spell.
pub fn read_le_u64(b: &Vec<u8>, i: usize) -> (r: u64)
    requires
        i + 8 <= b.len(),
    ensures
        r == le_u64_at(b@, i as int),
{
    (b[i] as u64) | ((b[i + 1] as u64) << 8u64) | ((b[i + 2] as u64) << 16u64) | ((b[i + 3] as u64)
        << 24u64) | ((b[i + 4] as u64) << 32u64) | ((b[i + 5] as u64) << 40u64) | ((b[i + 6] as u64)
        << 48u64) | ((b[i + 7] as u64) << 56u64)
}

/// `getrandom::getrandom` on a fresh buffer of `n` bytes: `Some` of the filled buffer,
/// whose length is `n`, or `None` where the operating system reported an error. The
/// bytes themselves are whatever the operating system supplied.
#[verifier::external_body]
pub(crate) fn os_random_bytes(n: usize) -> (r: Option<Vec<u8>>)
    ensures
        r matches Some(v) ==> v.len() == n,
{
    let mut buf = vec![0u8; n];
    match getrandom::getrandom(&mut buf) {
        Ok(()) => Some(buf),
        Err(_) => None,
    }
}

} // verus!
