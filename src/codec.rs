use vstd::prelude::*;

verus! {

/// Number of bytes of the reference field at the start of every record.
pub const REF_LEN: usize = 32;

/// Largest input, in bytes, that the digest accepts (2^61 - 1).
pub const MAX_DIGEST_INPUT: u64 = 0x1fff_ffff_ffff_ffff;

/// The SHA-256 digest of a byte sequence.
pub uninterp spec fn sha256_of(data: Seq<u8>) -> Seq<u8>;

/// Relies on ring::digest::digest with SHA256: its 32-byte output depends on the
/// input bytes alone. It panics only on inputs of 2^61 bytes or more.
#[verifier::external_body]
fn sha256(data: &[u8]) -> (r: [u8; 32])
    requires
        data@.len() <= MAX_DIGEST_INPUT,
    ensures
        r@ == sha256_of(data@),
{
    let d = ring::digest::digest(&ring::digest::SHA256, data);
    let mut out = [0u8; 32];
    out.copy_from_slice(d.as_ref());
    out
}

/// A block of `stride`-byte records holds `len / stride` whole records.
pub open spec fn well_formed(len: int, stride: int) -> bool {
    REF_LEN <= stride <= MAX_DIGEST_INPUT && len % stride == 0
}

/// Number of records in a well-formed block.
pub open spec fn record_count(block: Seq<u8>, stride: int) -> int {
    block.len() as int / stride
}

/// The full stride of record `n`.
pub open spec fn record_bytes(block: Seq<u8>, stride: int, n: int) -> Seq<u8> {
    block.subrange(n * stride, (n + 1) * stride)
}

/// The reference field of record `n`: its first 32 bytes.
pub open spec fn reference(block: Seq<u8>, stride: int, n: int) -> Seq<u8> {
    block.subrange(n * stride, n * stride + REF_LEN)
}

/// The identifier of record `n`: the digest of the digest of its bytes.
pub open spec fn record_id(block: Seq<u8>, stride: int, n: int) -> Seq<u8> {
    sha256_of(sha256_of(record_bytes(block, stride, n)))
}

/// The all-zero reference, which names no record of the block.
pub open spec fn is_sentinel(r: Seq<u8>) -> bool {
    forall|i: int| 0 <= i < r.len() ==> r[i] == 0u8
}

/// Record `n` lies inside the block and has room for its reference field.
pub open spec fn record_in_block(len: int, stride: int, n: int) -> bool {
    REF_LEN <= stride <= MAX_DIGEST_INPUT && 0 <= n && (n + 1) * stride <= len
}

proof fn lemma_record_offsets(len: int, stride: int, n: int)
    requires
        record_in_block(len, stride, n),
    ensures
        0 <= n * stride,
        n * stride + REF_LEN <= (n + 1) * stride,
        n * stride + REF_LEN <= len,
        n * stride + stride == (n + 1) * stride,
{
    assert(0 <= n * stride) by (nonlinear_arith)
        requires
            0 <= n,
            0 <= stride,
    ;
    assert((n + 1) * stride == n * stride + stride) by (nonlinear_arith);
}

/// The identifier of record `n`: a double SHA-256 of its whole stride.
pub fn txid(n: usize, block: &[u8], tx_size: usize) -> (r: [u8; 32])
    requires
        record_in_block(block@.len() as int, tx_size as int, n as int),
    ensures
        r@ == record_id(block@, tx_size as int, n as int),
{
    let _len = block.len();
    proof {
        lemma_record_offsets(block@.len() as int, tx_size as int, n as int);
    }
    let start = n * tx_size;
    let end = start + tx_size;
    assert(end == (n + 1) * tx_size) by (nonlinear_arith)
        requires
            start == n * tx_size,
            end == start + tx_size,
    ;
    let data = vstd::slice::slice_subrange(block, start, end);
    let first = sha256(data);
    sha256(first.as_slice())
}

/// Whether the reference field of record `n` is the all-zero sentinel.
pub fn has_sentinel_reference(n: usize, block: &[u8], tx_size: usize) -> (r: bool)
    requires
        record_in_block(block@.len() as int, tx_size as int, n as int),
    ensures
        r == is_sentinel(reference(block@, tx_size as int, n as int)),
{
    let _len = block.len();
    proof {
        lemma_record_offsets(block@.len() as int, tx_size as int, n as int);
    }
    let start = n * tx_size;
    let mut i: usize = 0;
    while i < REF_LEN
        invariant
            start == n * tx_size,
            start + REF_LEN <= block@.len(),
            block@.len() <= usize::MAX,
            i <= REF_LEN,
            forall|k: int| start <= k < start + i ==> #[trigger] block@[k] == 0u8,
        decreases REF_LEN - i,
    {
        if block[start + i] != 0 {
            assert(reference(block@, tx_size as int, n as int)[i as int] != 0u8);
            return false;
        }
        i = i + 1;
    }
    assert(is_sentinel(reference(block@, tx_size as int, n as int))) by {
        let r = reference(block@, tx_size as int, n as int);
        assert forall|k: int| 0 <= k < r.len() implies r[k] == 0u8 by {
            assert(r[k] == block@[start + k]);
        }
    }
    true
}

/// Copies the reference field of record `n`.
pub fn reference_of(n: usize, block: &[u8], tx_size: usize) -> (r: [u8; 32])
    requires
        record_in_block(block@.len() as int, tx_size as int, n as int),
    ensures
        r@ == reference(block@, tx_size as int, n as int),
{
    let _len = block.len();
    proof {
        lemma_record_offsets(block@.len() as int, tx_size as int, n as int);
    }
    let start = n * tx_size;
    let mut out = [0u8; 32];
    let mut i: usize = 0;
    while i < REF_LEN
        invariant
            start == n * tx_size,
            start + REF_LEN <= block@.len(),
            block@.len() <= usize::MAX,
            i <= REF_LEN,
            out@.len() == REF_LEN,
            forall|k: int| 0 <= k < i ==> #[trigger] out@[k] == block@[start + k],
        decreases REF_LEN - i,
    {
        out[i] = block[start + i];
        i = i + 1;
    }
    assert(out@ =~= reference(block@, tx_size as int, n as int));
    out
}

} // verus!
