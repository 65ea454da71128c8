use arrayvec::ArrayVec;
use vstd::prelude::*;

verus! {

/// `arrayvec::ArrayVec`, the fixed-capacity vector that holds a stored checksum;
/// what it holds is `stored_bytes`.
#[verifier::external_type_specification]
#[verifier::external_body]
#[verifier::reject_recursive_types(T)]
pub struct ExArrayVec<T, const CAP: usize>(ArrayVec<T, CAP>);

/// The digest that BLAKE3 gives for `data`.
pub uninterp spec fn blake3_of(data: Seq<u8>) -> [u8; 32];

/// The bytes that a checksum vector holds, in order.
pub uninterp spec fn stored_bytes(v: ArrayVec<u8, 32>) -> Seq<u8>;

/// Relies on `blake3::hash` and `blake3::Hash::as_bytes`: the 32-byte BLAKE3
/// digest of `data`.
#[verifier::external_body]
pub(crate) fn hash_of(data: &[u8]) -> (r: [u8; 32])
    ensures
        r == blake3_of(data@),
{
    *blake3::hash(data).as_bytes()
}

/// Relies on `ArrayVec::new`: a vector that holds nothing.
#[verifier::external_body]
pub(crate) fn checksum_new() -> (r: ArrayVec<u8, 32>)
    ensures
        stored_bytes(r) == Seq::<u8>::empty(),
{
    ArrayVec::new()
}

/// Relies on `ArrayVec::push`: appends `x`; it panics only on a full vector,
/// which `requires` leaves out.
#[verifier::external_body]
pub(crate) fn checksum_push(v: &mut ArrayVec<u8, 32>, x: u8)
    requires
        stored_bytes(*old(v)).len() < 32,
    ensures
        stored_bytes(*final(v)) == stored_bytes(*old(v)).push(x),
{
    v.push(x)
}

/// Relies on `ArrayVec::as_slice`: the bytes held, in order; never more than the
/// capacity.
#[verifier::external_body]
pub(crate) fn checksum_slice(v: &ArrayVec<u8, 32>) -> (r: &[u8])
    ensures
        r@ == stored_bytes(*v),
        r@.len() <= 32,
{
    v.as_slice()
}

/// The lower-case hex digit of a value below 16.
pub open spec fn hex_char(v: u8) -> u8 {
    if v < 10 {
        (48 + v) as u8
    } else {
        (87 + v) as u8
    }
}

/// Each byte of `b` as two lower-case hex digits, high half first.
pub open spec fn hex_lower(b: Seq<u8>) -> Seq<u8>
    decreases b.len(),
{
    if b.len() == 0 {
        Seq::empty()
    } else {
        hex_lower(b.drop_last()) + seq![hex_char(b.last() / 16), hex_char(b.last() % 16)]
    }
}

pub proof fn lemma_hex_lower_len(b: Seq<u8>)
    ensures
        hex_lower(b).len() == 2 * b.len(),
    decreases b.len(),
{
    if b.len() > 0 {
        lemma_hex_lower_len(b.drop_last());
    }
}

/// Appends the first `n` bytes of `digest` to `out` as lower-case hex.
pub fn push_hex(out: &mut Vec<u8>, digest: &[u8; 32], n: usize)
    requires
        n <= 32,
    ensures
        final(out)@ == old(out)@ + hex_lower(digest@.subrange(0, n as int)),
{
    let mut i: usize = 0;
    while i < n
        invariant
            i <= n <= 32,
            out@ == old(out)@ + hex_lower(digest@.subrange(0, i as int)),
        decreases n - i,
    {
        let b = digest[i];
        let hi = b / 16;
        let lo = b % 16;
        out.push(if hi < 10 { 48 + hi } else { 87 + hi });
        out.push(if lo < 10 { 48 + lo } else { 87 + lo });
        proof {
            assert(digest@.subrange(0, i + 1).drop_last() =~= digest@.subrange(0, i as int));
        }
        i = i + 1;
        assert(out@ =~= old(out)@ + hex_lower(digest@.subrange(0, i as int)));
    }
}

} // verus!
