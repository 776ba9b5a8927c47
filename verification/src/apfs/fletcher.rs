//! APFS Fletcher-64 checksum.
//!
//! The payload of a block is read as little-endian 32-bit words and two sums
//! are kept modulo `2^32 - 1`. The checksum is the pair of complements that
//! brings both sums back to zero when its two words are appended to the
//! payload.

use crate::apfs::bytes::{
    bytes_u32, bytes_u64, le, le_u32, le_u64, lemma_le_bound, lemma_le_concat, lemma_le_of_to_le,
    lemma_pow256, lemma_read_u32, lemma_read_u64, lemma_splice_inside, lemma_splice_outside,
    lemma_to_le_len, lemma_to_le_of_le, push_u64, put_bytes, rd_u32, rd_u64, splice,
};
use crate::apfs::error::{plain, ApfsError, Fault};
use crate::apfs::text::{msg1, text1};
use vstd::slice::slice_subrange;
use vstd::prelude::*;

verus! {

/// The modulus of both sums.
pub const MODULUS: u64 = 0xFFFF_FFFF;

/// The two running sums over the words of `s`: the sum of the words, and the
/// sum of the partial sums.
pub open spec fn sums(s: Seq<u8>) -> (int, int)
    decreases s.len(),
{
    if s.len() < 4 {
        (0, 0)
    } else {
        let (a, b) = sums(s.subrange(0, s.len() - 4));
        let a2 = (a + le_u32(s, s.len() - 4)) % (MODULUS as int);
        (a2, (a2 + b) % (MODULUS as int))
    }
}

/// The low word of the checksum for the sums `(a, b)`.
pub open spec fn check_low(a: int, b: int) -> int {
    MODULUS - (a + b) % (MODULUS as int)
}

/// The high word of the checksum for the sums `(a, b)`.
pub open spec fn check_high(a: int, b: int) -> int {
    MODULUS - (a + check_low(a, b)) % (MODULUS as int)
}

/// The checksum of a payload.
pub open spec fn checksum(payload: Seq<u8>) -> u64 {
    let (a, b) = sums(payload);
    (check_high(a, b) * 0x1_0000_0000 + check_low(a, b)) as u64
}

/// Whether a block of `len` bytes can carry a checksum.
pub open spec fn checkable(len: nat) -> bool {
    len >= 8 && len % 4 == 0
}

/// Whether the first eight bytes of `block` are the checksum of the rest.
pub open spec fn intact(block: Seq<u8>) -> bool {
    checkable(block.len()) && le_u64(block, 0) == checksum(block.subrange(8, block.len() as int))
}

/// `block` with the checksum of its payload in front.
pub open spec fn sealed(block: Seq<u8>) -> Seq<u8> {
    splice(block, 0, bytes_u64(checksum(block.subrange(8, block.len() as int))))
}

/// What is said of a block that cannot carry a checksum.
pub open spec fn bad_size(len: nat) -> Fault {
    Fault::Internal(
        msg1("fletcher: block size "@, len, " is invalid (need 4-byte aligned, >=8)"@),
    )
}

proof fn lemma_sums_range(s: Seq<u8>)
    ensures
        0 <= sums(s).0 < MODULUS,
        0 <= sums(s).1 < MODULUS,
    decreases s.len(),
{
    if s.len() >= 4 {
        lemma_sums_range(s.subrange(0, s.len() - 4));
    }
}

proof fn lemma_checksum_words(payload: Seq<u8>)
    ensures
        ({
            let (a, b) = sums(payload);
            &&& 1 <= check_low(a, b) <= MODULUS
            &&& 1 <= check_high(a, b) <= MODULUS
            &&& checksum(payload) == check_high(a, b) * 0x1_0000_0000 + check_low(a, b)
        }),
{
    lemma_sums_range(payload);
}

fn fold(data: &[u8]) -> (r: (u64, u64))
    requires
        data.len() % 4 == 0,
    ensures
        (r.0 as int, r.1 as int) == sums(data@),
        r.0 < MODULUS,
        r.1 < MODULUS,
{
    let mut sum1: u64 = 0;
    let mut sum2: u64 = 0;
    let mut i: usize = 0;
    while i < data.len()
        invariant
            i <= data.len(),
            i % 4 == 0,
            data.len() % 4 == 0,
            sum1 < MODULUS,
            sum2 < MODULUS,
            (sum1 as int, sum2 as int) == sums(data@.subrange(0, i as int)),
        decreases data.len() - i,
    {
        let word: u64 = rd_u32(data, i) as u64;
        proof {
            let next = data@.subrange(0, i + 4);
            assert(next.subrange(0, i as int) =~= data@.subrange(0, i as int));
            assert(next.subrange(i as int, i + 4) =~= data@.subrange(i as int, i + 4));
        }
        sum1 = (sum1 + word) % MODULUS;
        sum2 = (sum1 + sum2) % MODULUS;
        i += 4;
    }
    assert(data@.subrange(0, i as int) =~= data@);
    (sum1, sum2)
}

/// Compute the 8-byte Fletcher-64 checksum field for `payload` (everything in
/// the block except the leading 8 checksum bytes).
pub fn fletcher64(payload: &[u8]) -> (c: u64)
    requires
        payload.len() % 4 == 0,
    ensures
        c == checksum(payload@),
{
    let (s1, s2) = fold(payload);
    let low: u64 = MODULUS - ((s1 + s2) % MODULUS);
    let high: u64 = MODULUS - ((s1 + low) % MODULUS);
    high * 0x1_0000_0000 + low
}

/// Returns `true` when the leading 8 bytes of `block` match the checksum
/// implied by the rest of the block.
pub fn verify_object(block: &[u8]) -> (r: bool)
    ensures
        r == intact(block@),
{
    if block.len() < 8 || block.len() % 4 != 0 {
        return false;
    }
    let stored: u64 = rd_u64(block, 0);
    fletcher64(slice_subrange(block, 8, block.len())) == stored
}

/// Recompute and write the checksum into the first 8 bytes of `block`.
pub fn refresh_object_checksum(block: &mut [u8]) -> (r: Result<(), ApfsError>)
    ensures
        checkable(old(block)@.len()) ==> r is Ok && final(block)@ == sealed(old(block)@),
        !checkable(old(block)@.len()) ==> plain(r) == Err::<(), Fault>(bad_size(old(block)@.len()))
            && final(block)@ == old(block)@,
{
    if block.len() < 8 || block.len() % 4 != 0 {
        return Err(
            ApfsError::Internal(
                text1(
                    "fletcher: block size ",
                    block.len() as u64,
                    " is invalid (need 4-byte aligned, >=8)",
                ),
            ),
        );
    }
    let sum: u64 = fletcher64(slice_subrange(block, 8, block.len()));
    let mut field: Vec<u8> = Vec::new();
    push_u64(&mut field, sum);
    proof {
        lemma_to_le_len(sum as nat, 8);
        assert(field@ =~= bytes_u64(sum));
    }
    put_bytes(block, 0, field.as_slice());
    Ok(())
}

/// A block that was sealed is intact.
pub proof fn law_sealed_is_intact(block: Seq<u8>)
    requires
        checkable(block.len()),
    ensures
        intact(sealed(block)),
        sealed(block).len() == block.len(),
        sealed(block).subrange(8, block.len() as int) == block.subrange(8, block.len() as int),
{
    let n = block.len() as int;
    let c = checksum(block.subrange(8, n));
    lemma_to_le_len(c as nat, 8);
    lemma_splice_outside(block, 0, bytes_u64(c), 8, n);
    lemma_splice_inside(block, 0, bytes_u64(c), 0, 8);
    assert(bytes_u64(c).subrange(0, 8) =~= bytes_u64(c));
    lemma_read_u64(sealed(block), 0, c);
}

/// Appending the checksum to the payload brings both sums to zero.
pub proof fn law_checksum_cancels(payload: Seq<u8>)
    requires
        payload.len() % 4 == 0,
    ensures
        sums(payload + bytes_u64(checksum(payload))) == (0int, 0int),
{
    let (a, b) = sums(payload);
    let low = check_low(a, b);
    let high = check_high(a, b);
    let c = checksum(payload);
    lemma_sums_range(payload);
    lemma_checksum_words(payload);
    let n = payload.len() as int;
    let field = bytes_u64(c);
    lemma_to_le_len(c as nat, 8);
    let whole = payload + field;
    let mid = whole.subrange(0, n + 4);
    lemma_split_u64(c);
    assert(whole.subrange(n + 4, n + 8) =~= field.subrange(4, 8));
    assert(mid.subrange(n, n + 4) =~= field.subrange(0, 4));
    assert(mid.subrange(0, n) =~= payload);
    lemma_read_u32(whole, n + 4, high as u32);
    lemma_read_u32(mid, n, low as u32);
    let m = MODULUS as int;
    assert(sums(mid).0 == (a + low) % m);
    assert((a + b + low) % m == 0);
    assert(sums(mid).1 == ((a + low) % m + b) % m == 0);
    assert(((a + low) % m + high) % m == 0);
}

proof fn lemma_split_u64(c: u64)
    ensures
        bytes_u64(c).subrange(0, 4) == bytes_u32((c % 0x1_0000_0000) as u32),
        bytes_u64(c).subrange(4, 8) == bytes_u32((c / 0x1_0000_0000) as u32),
{
    let s = bytes_u64(c);
    lemma_to_le_len(c as nat, 8);
    lemma_pow256();
    lemma_le_of_to_le(c as nat, 8);
    let lo = s.subrange(0, 4);
    let hi = s.subrange(4, 8);
    assert(s =~= lo + hi);
    lemma_le_concat(lo, hi);
    lemma_le_bound(lo);
    lemma_le_bound(hi);
    lemma_to_le_of_le(lo);
    lemma_to_le_of_le(hi);
    assert(le(lo) == c % 0x1_0000_0000);
    assert(le(hi) == c / 0x1_0000_0000);
}

proof fn lemma_add_same(a: int, b: int, w: int, d: int)
    requires
        (a - b - d) % (MODULUS as int) == 0,
    ensures
        ((a + w) % (MODULUS as int) - (b + w) % (MODULUS as int) - d) % (MODULUS as int) == 0,
{
}

proof fn lemma_add_different(a: int, u: int, v: int)
    ensures
        ((a + u) % (MODULUS as int) - (a + v) % (MODULUS as int) - (u - v)) % (MODULUS as int) == 0,
{
}

/// The sum of the words can be read off the checksum.
proof fn lemma_checksum_gives_sum(p: Seq<u8>, q: Seq<u8>)
    requires
        checksum(p) == checksum(q),
    ensures
        sums(p).0 == sums(q).0,
{
    lemma_checksum_words(p);
    lemma_checksum_words(q);
    lemma_sums_range(p);
    lemma_sums_range(q);
}

/// The sum of the words of two payloads that differ in one word.
proof fn lemma_sum_one_word(p: Seq<u8>, q: Seq<u8>, i: int)
    requires
        p.len() == q.len(),
        p.len() % 4 == 0,
        0 <= i,
        i % 4 == 0,
        i + 4 <= p.len(),
        p.subrange(0, i) == q.subrange(0, i),
        p.subrange(i + 4, p.len() as int) == q.subrange(i + 4, q.len() as int),
    ensures
        (sums(p).0 - sums(q).0 - (le_u32(p, i) - le_u32(q, i))) % (MODULUS as int) == 0,
    decreases p.len(),
{
    let n = p.len() as int;
    let p1 = p.subrange(0, n - 4);
    let q1 = q.subrange(0, n - 4);
    if i + 4 == n {
        assert(p1 =~= p.subrange(0, i));
        assert(q1 =~= q.subrange(0, i));
        lemma_add_different(sums(p1).0, le_u32(p, i) as int, le_u32(q, i) as int);
    } else {
        assert(p1.subrange(0, i) =~= p.subrange(0, i));
        assert(q1.subrange(0, i) =~= q.subrange(0, i));
        assert(p1.subrange(i + 4, n - 4) =~= p.subrange(i + 4, n).subrange(0, n - 8 - i));
        assert(q1.subrange(i + 4, n - 4) =~= q.subrange(i + 4, n).subrange(0, n - 8 - i));
        assert(p1.subrange(i, i + 4) =~= p.subrange(i, i + 4));
        assert(q1.subrange(i, i + 4) =~= q.subrange(i, i + 4));
        lemma_sum_one_word(p1, q1, i);
        let d = le_u32(p, i) - le_u32(q, i);
        lemma_add_same(sums(p1).0, sums(q1).0, le_u32(p, n - 4) as int, d);
        assert(p.subrange(n - 4, n) =~= p.subrange(i + 4, n).subrange(n - 8 - i, n - i - 4));
        assert(q.subrange(n - 4, n) =~= q.subrange(i + 4, n).subrange(n - 8 - i, n - i - 4));
    }
}

/// Corruption is detected: of two payloads that differ in one word, by more
/// than the two ways to write zero modulo `2^32 - 1`, the checksums differ.
pub proof fn law_changed_word_is_detected(p: Seq<u8>, q: Seq<u8>, i: int)
    requires
        p.len() == q.len(),
        p.len() % 4 == 0,
        0 <= i,
        i % 4 == 0,
        i + 4 <= p.len(),
        p.subrange(0, i) == q.subrange(0, i),
        p.subrange(i + 4, p.len() as int) == q.subrange(i + 4, q.len() as int),
        le_u32(p, i) != le_u32(q, i),
        !(le_u32(p, i) == 0 && le_u32(q, i) == 0xFFFF_FFFF),
        !(le_u32(p, i) == 0xFFFF_FFFF && le_u32(q, i) == 0),
    ensures
        checksum(p) != checksum(q),
{
    lemma_sum_one_word(p, q, i);
    if checksum(p) == checksum(q) {
        lemma_checksum_gives_sum(p, q);
        let d = le_u32(q, i) - le_u32(p, i);
        assert(d % (MODULUS as int) == 0);
        assert(d == 0 || d == MODULUS || d == -MODULUS);
    }
}

/// The sums of a payload with one word more: the first sum adds the word, and
/// the second adds the first sum, both modulo the largest number of 32 bits.
pub proof fn law_word_adds_to_sums(s: Seq<u8>, w: Seq<u8>)
    requires
        w.len() == 4,
    ensures
        sums(Seq::<u8>::empty()) == (0int, 0int),
        sums(s + w).0 == (sums(s).0 + le_u32(w, 0)) % 0xFFFF_FFFF,
        sums(s + w).1 == (sums(s + w).0 + sums(s).1) % 0xFFFF_FFFF,
{
    let all = s + w;
    let n = s.len() as int;
    assert(all.subrange(0, n) =~= s);
    assert(all.subrange(n, n + 4) =~= w.subrange(0, 4));
}

/// A block is intact if its first eight bytes are the checksum of the others:
/// with the sums of these, the low and the high word make both sums zero again.
pub proof fn law_intact_blocks(b: Seq<u8>)
    requires
        b.len() >= 8,
        b.len() % 4 == 0,
    ensures
        ({
            let (x, y) = sums(b.skip(8));
            let low = 0xFFFF_FFFF - (x + y) % 0xFFFF_FFFF;
            let high = 0xFFFF_FFFF - (x + low) % 0xFFFF_FFFF;
            intact(b) <==> le_u64(b, 0) == high * 0x1_0000_0000 + low
        }),
{
    assert(b.skip(8) =~= b.subrange(8, b.len() as int));
    lemma_sums_range(b.skip(8));
}

} // verus!
