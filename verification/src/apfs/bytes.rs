//! Little-endian integers inside byte sequences.

use vstd::slice::{slice_subrange, slice_to_vec};
use vstd::prelude::*;

verus! {

/// The number whose base-256 digits are `s`, least significant first.
pub open spec fn le(s: Seq<u8>) -> nat
    decreases s.len(),
{
    if s.len() == 0 { 0 } else { s[0] as nat + 256 * le(s.drop_first()) }
}

/// The `n` lowest base-256 digits of `x`, least significant first.
pub open spec fn to_le(x: nat, n: nat) -> Seq<u8>
    decreases n,
{
    if n == 0 {
        Seq::empty()
    } else {
        seq![(x % 256) as u8] + to_le(x / 256, (n - 1) as nat)
    }
}

/// `256` to the power `n`.
pub open spec fn pow256(n: nat) -> nat
    decreases n,
{
    if n == 0 { 1 } else { 256 * pow256((n - 1) as nat) }
}

/// The 16-bit integer stored at offset `o`.
pub open spec fn le_u16(s: Seq<u8>, o: int) -> u16 {
    le(s.subrange(o, o + 2)) as u16
}

/// The 32-bit integer stored at offset `o`.
pub open spec fn le_u32(s: Seq<u8>, o: int) -> u32 {
    le(s.subrange(o, o + 4)) as u32
}

/// The 64-bit integer stored at offset `o`.
pub open spec fn le_u64(s: Seq<u8>, o: int) -> u64 {
    le(s.subrange(o, o + 8)) as u64
}

/// The signed 32-bit integer stored at offset `o`.
pub open spec fn le_i32(s: Seq<u8>, o: int) -> i32 {
    le_u32(s, o) as i32
}

/// The signed 64-bit integer stored at offset `o`.
pub open spec fn le_i64(s: Seq<u8>, o: int) -> i64 {
    le_u64(s, o) as i64
}

/// The bytes of a 16-bit integer.
pub open spec fn bytes_u16(x: u16) -> Seq<u8> {
    to_le(x as nat, 2)
}

/// The bytes of a 32-bit integer.
pub open spec fn bytes_u32(x: u32) -> Seq<u8> {
    to_le(x as nat, 4)
}

/// The bytes of a 64-bit integer.
pub open spec fn bytes_u64(x: u64) -> Seq<u8> {
    to_le(x as nat, 8)
}

/// The bytes of a signed 32-bit integer, in two's complement.
pub open spec fn bytes_i32(x: i32) -> Seq<u8> {
    bytes_u32(x as u32)
}

/// The bytes of a signed 64-bit integer, in two's complement.
pub open spec fn bytes_i64(x: i64) -> Seq<u8> {
    bytes_u64(x as u64)
}

/// `s` with `d` written over it from offset `off` on.
pub open spec fn splice(s: Seq<u8>, off: int, d: Seq<u8>) -> Seq<u8> {
    Seq::new(s.len(), |i: int| if off <= i < off + d.len() { d[i - off] } else { s[i] })
}

/// A block of zeros.
pub open spec fn zero_bytes(n: nat) -> Seq<u8> {
    Seq::new(n, |i: int| 0u8)
}

pub proof fn lemma_to_le_len(x: nat, n: nat)
    ensures
        to_le(x, n).len() == n,
    decreases n,
{
    if n > 0 {
        lemma_to_le_len(x / 256, (n - 1) as nat);
    }
}

pub proof fn lemma_le_bound(s: Seq<u8>)
    ensures
        le(s) < pow256(s.len()),
    decreases s.len(),
{
    if s.len() > 0 {
        lemma_le_bound(s.drop_first());
    }
}

/// Reading back the digits of a number that fits gives the number.
pub proof fn lemma_le_of_to_le(x: nat, n: nat)
    requires
        x < pow256(n),
    ensures
        le(to_le(x, n)) == x,
    decreases n,
{
    if n > 0 {
        let rest = to_le(x / 256, (n - 1) as nat);
        lemma_le_of_to_le(x / 256, (n - 1) as nat);
        assert(to_le(x, n).drop_first() =~= rest);
    }
}

/// The digits of the number that `s` holds are `s`.
pub proof fn lemma_to_le_of_le(s: Seq<u8>)
    ensures
        to_le(le(s), s.len()) == s,
    decreases s.len(),
{
    if s.len() > 0 {
        lemma_to_le_of_le(s.drop_first());
        let rest = le(s.drop_first());
        assert((s[0] as nat + 256 * rest) / 256 == rest);
        assert((s[0] as nat + 256 * rest) % 256 == s[0] as nat);
        assert(to_le(le(s), s.len()) =~= s);
    } else {
        assert(to_le(le(s), s.len()) =~= s);
    }
}

/// The number that two runs of digits hold together.
pub proof fn lemma_le_concat(a: Seq<u8>, b: Seq<u8>)
    ensures
        le(a + b) == le(a) + pow256(a.len()) * le(b),
    decreases a.len(),
{
    if a.len() == 0 {
        assert(a + b =~= b);
        let x = le(b);
        assert(1 * x == x) by (nonlinear_arith);
        assert(pow256(a.len()) * x == x);
    } else {
        lemma_le_concat(a.drop_first(), b);
        assert((a + b).drop_first() =~= a.drop_first() + b);
        let p = pow256(a.drop_first().len());
        let x = le(b);
        assert(256 * (p * x) == (256 * p) * x) by (nonlinear_arith);
        assert(pow256(a.len()) * x == 256 * (p * x));
    }
}

pub proof fn lemma_pow256()
    ensures
        pow256(2) == 0x1_0000,
        pow256(4) == 0x1_0000_0000,
        pow256(8) == 0x1_0000_0000_0000_0000,
{
    reveal_with_fuel(pow256, 9);
}

/// Sizes of the integer encodings.
pub broadcast proof fn lemma_bytes_u16_len(x: u16)
    ensures
        #[trigger] bytes_u16(x).len() == 2,
{
    lemma_to_le_len(x as nat, 2);
}

pub broadcast proof fn lemma_bytes_u32_len(x: u32)
    ensures
        #[trigger] bytes_u32(x).len() == 4,
{
    lemma_to_le_len(x as nat, 4);
}

pub broadcast proof fn lemma_bytes_u64_len(x: u64)
    ensures
        #[trigger] bytes_u64(x).len() == 8,
{
    lemma_to_le_len(x as nat, 8);
}

pub broadcast group group_bytes_len {
    lemma_bytes_u16_len,
    lemma_bytes_u32_len,
    lemma_bytes_u64_len,
}

/// What `le_u16` reads where the bytes of `x` stand.
pub proof fn lemma_read_u16(s: Seq<u8>, o: int, x: u16)
    requires
        0 <= o,
        o + 2 <= s.len(),
        s.subrange(o, o + 2) == bytes_u16(x),
    ensures
        le_u16(s, o) == x,
{
    lemma_pow256();
    lemma_le_of_to_le(x as nat, 2);
}

pub proof fn lemma_read_u32(s: Seq<u8>, o: int, x: u32)
    requires
        0 <= o,
        o + 4 <= s.len(),
        s.subrange(o, o + 4) == bytes_u32(x),
    ensures
        le_u32(s, o) == x,
{
    lemma_pow256();
    lemma_le_of_to_le(x as nat, 4);
}

pub proof fn lemma_read_u64(s: Seq<u8>, o: int, x: u64)
    requires
        0 <= o,
        o + 8 <= s.len(),
        s.subrange(o, o + 8) == bytes_u64(x),
    ensures
        le_u64(s, o) == x,
{
    lemma_pow256();
    lemma_le_of_to_le(x as nat, 8);
}

pub proof fn lemma_read_i32(s: Seq<u8>, o: int, x: i32)
    requires
        0 <= o,
        o + 4 <= s.len(),
        s.subrange(o, o + 4) == bytes_i32(x),
    ensures
        le_i32(s, o) == x,
{
    lemma_read_u32(s, o, x as u32);
    assert((x as u32) as i32 == x) by (bit_vector);
}

pub proof fn lemma_read_i64(s: Seq<u8>, o: int, x: i64)
    requires
        0 <= o,
        o + 8 <= s.len(),
        s.subrange(o, o + 8) == bytes_i64(x),
    ensures
        le_i64(s, o) == x,
{
    lemma_read_u64(s, o, x as u64);
    assert((x as u64) as i64 == x) by (bit_vector);
}

/// The bytes of the integer read at `o` are the bytes that stand there.
pub proof fn lemma_write_u32(s: Seq<u8>, o: int)
    requires
        0 <= o,
        o + 4 <= s.len(),
    ensures
        bytes_u32(le_u32(s, o)) == s.subrange(o, o + 4),
{
    lemma_pow256();
    lemma_le_bound(s.subrange(o, o + 4));
    lemma_to_le_of_le(s.subrange(o, o + 4));
}

pub proof fn lemma_write_u64(s: Seq<u8>, o: int)
    requires
        0 <= o,
        o + 8 <= s.len(),
    ensures
        bytes_u64(le_u64(s, o)) == s.subrange(o, o + 8),
{
    lemma_pow256();
    lemma_le_bound(s.subrange(o, o + 8));
    lemma_to_le_of_le(s.subrange(o, o + 8));
}

/// What stands inside the spliced range is what was written.
pub proof fn lemma_splice_inside(s: Seq<u8>, off: int, d: Seq<u8>, a: int, b: int)
    requires
        0 <= off,
        off + d.len() <= s.len(),
        off <= a <= b <= off + d.len(),
    ensures
        splice(s, off, d).subrange(a, b) == d.subrange(a - off, b - off),
{
    assert(splice(s, off, d).subrange(a, b) =~= d.subrange(a - off, b - off));
}

/// What stands outside the spliced range is as before.
pub proof fn lemma_splice_outside(s: Seq<u8>, off: int, d: Seq<u8>, a: int, b: int)
    requires
        0 <= off,
        off + d.len() <= s.len(),
        0 <= a <= b <= s.len(),
        b <= off || off + d.len() <= a,
    ensures
        splice(s, off, d).subrange(a, b) == s.subrange(a, b),
{
    assert(splice(s, off, d).subrange(a, b) =~= s.subrange(a, b));
}

/// The 16-bit integer stored at offset `o`.
pub fn rd_u16(b: &[u8], o: usize) -> (x: u16)
    requires
        o + 2 <= b.len(),
    ensures
        x == le_u16(b@, o as int),
{
    proof {
        let s = b@.subrange(o as int, o + 2);
        reveal_with_fuel(le, 3);
        assert(s.drop_first().drop_first().len() == 0);
        assert(s.drop_first()[0] == s[1]);
        assert(le(s) == s[0] as nat + 256 * s[1] as nat);
    }
    b[o] as u16 + 256 * (b[o + 1] as u16)
}

/// The 32-bit integer stored at offset `o`.
pub fn rd_u32(b: &[u8], o: usize) -> (x: u32)
    requires
        o + 4 <= b.len(),
    ensures
        x == le_u32(b@, o as int),
{
    proof {
        let s = b@.subrange(o as int, o + 4);
        reveal_with_fuel(le, 5);
        let s1 = s.drop_first();
        let s2 = s1.drop_first();
        let s3 = s2.drop_first();
        assert(s3.drop_first().len() == 0);
        assert(s1[0] == s[1] && s2[0] == s[2] && s3[0] == s[3]);
    }
    b[o] as u32 + 0x100 * (b[o + 1] as u32) + 0x1_0000 * (b[o + 2] as u32) + 0x100_0000 * (b[o
        + 3] as u32)
}

/// The 64-bit integer stored at offset `o`.
pub fn rd_u64(b: &[u8], o: usize) -> (x: u64)
    requires
        o + 8 <= b.len(),
    ensures
        x == le_u64(b@, o as int),
{
    let lo: u32 = rd_u32(b, o);
    let hi: u32 = rd_u32(b, o + 4);
    proof {
        let s = b@.subrange(o as int, o + 8);
        let l = b@.subrange(o as int, o + 4);
        let h = b@.subrange(o + 4, o + 8);
        lemma_pow256();
        lemma_le_bound(l);
        lemma_le_bound(h);
        reveal_with_fuel(le, 5);
        let s1 = s.drop_first();
        let s2 = s1.drop_first();
        let s3 = s2.drop_first();
        let s4 = s3.drop_first();
        let l1 = l.drop_first();
        let l2 = l1.drop_first();
        let l3 = l2.drop_first();
        assert(l3.drop_first().len() == 0);
        assert(s4 =~= h);
        assert(s[0] == l[0] && s1[0] == l1[0] && s2[0] == l2[0] && s3[0] == l3[0]);
        assert(le(s) == le(l) + 0x1_0000_0000 * le(h));
    }
    lo as u64 + 0x1_0000_0000 * (hi as u64)
}

/// The signed 32-bit integer stored at offset `o`.
pub fn rd_i32(b: &[u8], o: usize) -> (x: i32)
    requires
        o + 4 <= b.len(),
    ensures
        x == le_i32(b@, o as int),
{
    rd_u32(b, o) as i32
}

/// The signed 64-bit integer stored at offset `o`.
pub fn rd_i64(b: &[u8], o: usize) -> (x: i64)
    requires
        o + 8 <= b.len(),
    ensures
        x == le_i64(b@, o as int),
{
    rd_u64(b, o) as i64
}

/// Append the `n` lowest base-256 digits of `x` to `out`.
fn push_le(out: &mut Vec<u8>, x: u64, n: usize)
    ensures
        final(out)@ == old(out)@ + to_le(x as nat, n as nat),
{
    let mut cur: u64 = x;
    let mut i: usize = 0;
    assert(out@ + to_le(cur as nat, n as nat) =~= old(out)@ + to_le(x as nat, n as nat));
    while i < n
        invariant
            i <= n,
            out@ + to_le(cur as nat, (n - i) as nat) == old(out)@ + to_le(x as nat, n as nat),
        decreases n - i,
    {
        let ghost before = out@;
        out.push((cur % 256) as u8);
        proof {
            let rest = to_le((cur / 256) as nat, (n - i - 1) as nat);
            assert(before + to_le(cur as nat, (n - i) as nat) =~= out@ + rest);
        }
        cur = cur / 256;
        i += 1;
    }
    assert(out@ + to_le(cur as nat, 0) =~= out@);
}

/// Append a 16-bit integer.
pub fn push_u16(out: &mut Vec<u8>, x: u16)
    ensures
        final(out)@ == old(out)@ + bytes_u16(x),
{
    push_le(out, x as u64, 2)
}

/// Append a 32-bit integer.
pub fn push_u32(out: &mut Vec<u8>, x: u32)
    ensures
        final(out)@ == old(out)@ + bytes_u32(x),
{
    push_le(out, x as u64, 4)
}

/// Append a 64-bit integer.
pub fn push_u64(out: &mut Vec<u8>, x: u64)
    ensures
        final(out)@ == old(out)@ + bytes_u64(x),
{
    push_le(out, x, 8)
}

/// Append a signed 32-bit integer.
pub fn push_i32(out: &mut Vec<u8>, x: i32)
    ensures
        final(out)@ == old(out)@ + bytes_i32(x),
{
    push_u32(out, x as u32)
}

/// Append a signed 64-bit integer.
pub fn push_i64(out: &mut Vec<u8>, x: i64)
    ensures
        final(out)@ == old(out)@ + bytes_i64(x),
{
    push_u64(out, x as u64)
}

/// Append a run of bytes.
pub fn push_bytes(out: &mut Vec<u8>, d: &[u8])
    ensures
        final(out)@ == old(out)@ + d@,
{
    out.extend_from_slice(d);
    assert(out@ =~= old(out)@ + d@);
}

/// Write `d` over `buf` from offset `off` on.
pub fn put_bytes(buf: &mut [u8], off: usize, d: &[u8])
    requires
        off + d.len() <= old(buf).len(),
    ensures
        final(buf)@ == splice(old(buf)@, off as int, d@),
{
    let mut i: usize = 0;
    assert(buf@ =~= splice(old(buf)@, off as int, d@.subrange(0, 0)));
    while i < d.len()
        invariant
            i <= d.len(),
            off + d.len() <= buf.len(),
            old(buf)@.len() == buf@.len(),
            buf@ == splice(old(buf)@, off as int, d@.subrange(0, i as int)),
        decreases d.len() - i,
    {
        let ghost before = buf@;
        buf[off + i] = d[i];
        proof {
            assert(buf@ =~= splice(old(buf)@, off as int, d@.subrange(0, i + 1)));
        }
        i += 1;
    }
    assert(d@.subrange(0, d@.len() as int) =~= d@);
}

/// A copy of `b[from..to]`.
pub fn copy_range(b: &[u8], from: usize, to: usize) -> (v: Vec<u8>)
    requires
        from <= to <= b.len(),
    ensures
        v@ == b@.subrange(from as int, to as int),
{
    slice_to_vec(slice_subrange(b, from, to))
}

/// `n` zeros.
pub fn zeroed(n: usize) -> (v: Vec<u8>)
    ensures
        v@ == zero_bytes(n as nat),
{
    let v = vec![0u8; n];
    assert(v@ =~= zero_bytes(n as nat));
    v
}

/// The 16 bytes of `v` as an array.
pub fn array16(v: &[u8]) -> (a: [u8; 16])
    requires
        v.len() == 16,
    ensures
        a@ == v@,
{
    let a = [
        v[0],
        v[1],
        v[2],
        v[3],
        v[4],
        v[5],
        v[6],
        v[7],
        v[8],
        v[9],
        v[10],
        v[11],
        v[12],
        v[13],
        v[14],
        v[15],
    ];
    assert(a@ =~= v@);
    a
}

/// Append the bytes of an array.
pub fn push_array16(out: &mut Vec<u8>, a: &[u8; 16])
    ensures
        final(out)@ == old(out)@ + a@,
{
    let mut i: usize = 0;
    assert(out@ =~= old(out)@ + a@.subrange(0, 0));
    while i < 16
        invariant
            i <= 16,
            a@.len() == 16,
            out@ == old(out)@ + a@.subrange(0, i as int),
        decreases 16 - i,
    {
        out.push(a[i]);
        assert(out@ =~= old(out)@ + a@.subrange(0, i + 1));
        i += 1;
    }
    assert(a@.subrange(0, 16) =~= a@);
}

/// Whether two byte strings are equal.
pub fn same_bytes(a: &[u8], b: &[u8]) -> (r: bool)
    ensures
        r == (a@ == b@),
{
    if a.len() != b.len() {
        return false;
    }
    let mut i: usize = 0;
    while i < a.len()
        invariant
            i <= a.len(),
            a.len() == b.len(),
            forall|k: int| 0 <= k < i ==> a@[k] == b@[k],
        decreases a.len() - i,
    {
        if a[i] != b[i] {
            return false;
        }
        i += 1;
    }
    assert(a@ =~= b@);
    true
}

} // verus!
