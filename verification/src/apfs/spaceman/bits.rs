//! Bits of a bitmap, the lowest bit of the first byte first.

use vstd::prelude::*;

verus! {

/// Bit `k` of a byte.
pub open spec fn byte_bit(x: u8, k: u8) -> bool {
    x & (1u8 << k) != 0
}

/// Bit `i` of a bitmap.
pub open spec fn bit(bm: Seq<u8>, i: int) -> bool {
    byte_bit(bm[i / 8], (i % 8) as u8)
}

/// Whether bit `i` lies in the bitmap and is set.
pub open spec fn is_set(bm: Seq<u8>, i: int) -> bool {
    0 <= i < bm.len() * 8 && bit(bm, i)
}

/// The bitmap with bit `i` set.
pub open spec fn with_bit(bm: Seq<u8>, i: int) -> Seq<u8> {
    bm.update(i / 8, bm[i / 8] | (1u8 << ((i % 8) as u8)))
}

/// The bitmap with bit `i` clear.
pub open spec fn without_bit(bm: Seq<u8>, i: int) -> Seq<u8> {
    bm.update(i / 8, bm[i / 8] & !(1u8 << ((i % 8) as u8)))
}

proof fn lemma_byte_set(x: u8, k: u8, j: u8)
    requires
        k < 8,
        j < 8,
    ensures
        byte_bit(x | (1u8 << k), j) == (j == k || byte_bit(x, j)),
{
    assert(((x | (1u8 << k)) & (1u8 << j) != 0) == (j == k || x & (1u8 << j) != 0)) by (bit_vector)
        requires
            k < 8,
            j < 8,
    ;
}

proof fn lemma_byte_clear(x: u8, k: u8, j: u8)
    requires
        k < 8,
        j < 8,
    ensures
        byte_bit(x & !(1u8 << k), j) == (j != k && byte_bit(x, j)),
{
    assert(((x & !(1u8 << k)) & (1u8 << j) != 0) == (j != k && x & (1u8 << j) != 0))
        by (bit_vector)
        requires
            k < 8,
            j < 8,
    ;
}

proof fn lemma_byte_full(k: u8)
    requires
        k < 8,
    ensures
        byte_bit(0xFF, k),
        !byte_bit(0, k),
{
    assert(0xFFu8 & (1u8 << k) != 0 && 0u8 & (1u8 << k) == 0) by (bit_vector)
        requires
            k < 8,
    ;
}

proof fn lemma_byte_eq(x: u8, y: u8)
    requires
        forall|k: u8| k < 8 ==> (#[trigger] byte_bit(x, k)) == byte_bit(y, k),
    ensures
        x == y,
{
    assert(byte_bit(x, 0) == byte_bit(y, 0));
    assert(byte_bit(x, 1) == byte_bit(y, 1));
    assert(byte_bit(x, 2) == byte_bit(y, 2));
    assert(byte_bit(x, 3) == byte_bit(y, 3));
    assert(byte_bit(x, 4) == byte_bit(y, 4));
    assert(byte_bit(x, 5) == byte_bit(y, 5));
    assert(byte_bit(x, 6) == byte_bit(y, 6));
    assert(byte_bit(x, 7) == byte_bit(y, 7));
    assert(x == y) by (bit_vector)
        requires
            (x & (1u8 << 0u8) != 0) == (y & (1u8 << 0u8) != 0),
            (x & (1u8 << 1u8) != 0) == (y & (1u8 << 1u8) != 0),
            (x & (1u8 << 2u8) != 0) == (y & (1u8 << 2u8) != 0),
            (x & (1u8 << 3u8) != 0) == (y & (1u8 << 3u8) != 0),
            (x & (1u8 << 4u8) != 0) == (y & (1u8 << 4u8) != 0),
            (x & (1u8 << 5u8) != 0) == (y & (1u8 << 5u8) != 0),
            (x & (1u8 << 6u8) != 0) == (y & (1u8 << 6u8) != 0),
            (x & (1u8 << 7u8) != 0) == (y & (1u8 << 7u8) != 0),
    ;
}

/// Setting a bit sets it and leaves the others.
pub proof fn lemma_with_bit(bm: Seq<u8>, i: int, j: int)
    requires
        0 <= i < bm.len() * 8,
        0 <= j < bm.len() * 8,
    ensures
        bit(with_bit(bm, i), j) == (j == i || bit(bm, j)),
        with_bit(bm, i).len() == bm.len(),
{
    if i / 8 == j / 8 {
        lemma_byte_set(bm[i / 8], (i % 8) as u8, (j % 8) as u8);
    }
}

/// Clearing a bit clears it and leaves the others.
pub proof fn lemma_without_bit(bm: Seq<u8>, i: int, j: int)
    requires
        0 <= i < bm.len() * 8,
        0 <= j < bm.len() * 8,
    ensures
        bit(without_bit(bm, i), j) == (j != i && bit(bm, j)),
        without_bit(bm, i).len() == bm.len(),
{
    if i / 8 == j / 8 {
        lemma_byte_clear(bm[i / 8], (i % 8) as u8, (j % 8) as u8);
    }
}

/// Bitmaps with the same bits are the same.
pub proof fn lemma_same_bits(a: Seq<u8>, b: Seq<u8>)
    requires
        a.len() == b.len(),
        forall|i: int| 0 <= i < a.len() * 8 ==> (#[trigger] bit(a, i)) == bit(b, i),
    ensures
        a == b,
{
    assert forall|n: int| 0 <= n < a.len() implies a[n] == b[n] by {
        assert forall|k: u8| k < 8 implies (#[trigger] byte_bit(a[n], k)) == byte_bit(b[n], k) by {
            let i = n * 8 + k;
            assert(i / 8 == n && i % 8 == k);
            assert(bit(a, i) == bit(b, i));
        }
        lemma_byte_eq(a[n], b[n]);
    }
    assert(a =~= b);
}

pub fn set_bit(bitmap: &mut [u8], bit: usize)
    requires
        bit < old(bitmap)@.len() * 8,
    ensures
        final(bitmap)@ == with_bit(old(bitmap)@, bit as int),
{
    let k: u8 = (bit % 8) as u8;
    let x: u8 = bitmap[bit / 8];
    bitmap[bit / 8] = x | (1u8 << k);
}

pub fn clear_bit(bitmap: &mut [u8], bit: usize)
    requires
        bit < old(bitmap)@.len() * 8,
    ensures
        final(bitmap)@ == without_bit(old(bitmap)@, bit as int),
{
    let k: u8 = (bit % 8) as u8;
    let x: u8 = bitmap[bit / 8];
    bitmap[bit / 8] = x & !(1u8 << k);
}

pub fn get_bit(bitmap: &[u8], bit: usize) -> (r: bool)
    requires
        bit < bitmap@.len() * 8,
    ensures
        r == self::bit(bitmap@, bit as int),
{
    let k: u8 = (bit % 8) as u8;
    bitmap[bit / 8] & (1u8 << k) != 0
}

/// The first clear bit from bit `i` on, among the first `total` bits.
pub open spec fn first_clear(bm: Seq<u8>, total: int, i: int) -> Option<int>
    decreases total - i,
{
    if i >= total || i >= bm.len() * 8 || i < 0 {
        None
    } else if !bit(bm, i) {
        Some(i)
    } else {
        first_clear(bm, total, i + 1)
    }
}

/// An optional position, taken as a mathematical integer.
pub open spec fn place_view(r: Option<usize>) -> Option<int> {
    match r {
        Some(i) => Some(i as int),
        None => None,
    }
}

/// A first clear bit past eight set ones.
proof fn lemma_skip_full_byte(bm: Seq<u8>, total: int, i: int, end: int)
    requires
        0 <= i <= end,
        end <= bm.len() * 8,
        end - i <= 8,
        forall|j: int| i <= j < end ==> bit(bm, j),
    ensures
        first_clear(bm, total, i) == first_clear(bm, total, end) || (end > total && first_clear(
            bm,
            total,
            i,
        ) is None && first_clear(bm, total, end) is None),
    decreases end - i,
{
    if i < end {
        lemma_skip_full_byte(bm, total, i + 1, end);
    }
}

/// The first clear bit among the first `total_bits` bits.
pub fn find_first_clear_bit(bitmap: &[u8], total_bits: usize) -> (r: Option<usize>)
    ensures
        place_view(r) == first_clear(bitmap@, total_bits as int, 0),
{
    let mut byte_idx: usize = 0;
    while byte_idx < bitmap.len() && byte_idx <= total_bits / 8
        invariant
            byte_idx <= bitmap.len(),
            first_clear(bitmap@, total_bits as int, 0) == first_clear(
                bitmap@,
                total_bits as int,
                byte_idx * 8,
            ),
        decreases bitmap.len() - byte_idx,
    {
        let byte: u8 = bitmap[byte_idx];
        if byte == 0xFF {
            proof {
                assert forall|j: int| byte_idx * 8 <= j < byte_idx * 8 + 8 implies bit(
                    bitmap@,
                    j,
                ) by {
                    assert(j / 8 == byte_idx);
                    lemma_byte_full((j % 8) as u8);
                }
                lemma_skip_full_byte(
                    bitmap@,
                    total_bits as int,
                    byte_idx * 8,
                    byte_idx * 8 + 8,
                );
            }
        } else {
            let mut bit: usize = 0;
            while bit < 8
                invariant
                    bit <= 8,
                    byte_idx < bitmap.len(),
                    byte_idx <= total_bits / 8,
                    byte == bitmap@[byte_idx as int],
                    first_clear(bitmap@, total_bits as int, 0) == first_clear(
                        bitmap@,
                        total_bits as int,
                        byte_idx * 8 + bit,
                    ),
                decreases 8 - bit,
            {
                if byte_idx * 8 >= total_bits || bit >= total_bits - byte_idx * 8 {
                    return None;
                }
                let global: usize = byte_idx * 8 + bit;
                assert(global as int / 8 == byte_idx && global as int % 8 == bit);
                if byte & (1u8 << (bit as u8)) == 0 {
                    return Some(global);
                }
                bit += 1;
            }
        }
        byte_idx += 1;
    }
    None
}

/// Whether the `n` bits from `s` on are clear and among the first `total`.
pub open spec fn is_clear_run(bm: Seq<u8>, total: int, s: int, n: int) -> bool {
    &&& 0 <= s
    &&& s + n <= total
    &&& forall|j: int| s <= j < s + n ==> !#[trigger] bit(bm, j)
}

/// The first clear run of `n` bits that starts at `s` or later.
pub open spec fn first_run(bm: Seq<u8>, total: int, n: int, s: int) -> Option<int>
    decreases total - s,
{
    if s < 0 || s + n > total || n <= 0 {
        None
    } else if is_clear_run(bm, total, s, n) {
        Some(s)
    } else {
        first_run(bm, total, n, s + 1)
    }
}

/// No run that holds bit `b` is clear.
proof fn lemma_runs_past(bm: Seq<u8>, total: int, n: int, s: int, b: int)
    requires
        0 <= s <= b + 1,
        n > 0,
        b < total,
        bit(bm, b),
        s + n > b,
    ensures
        first_run(bm, total, n, s) == first_run(bm, total, n, b + 1) || (first_run(bm, total, n, s)
            is None && first_run(bm, total, n, b + 1) is None),
    decreases b + 1 - s,
{
    if s <= b {
        assert(!is_clear_run(bm, total, s, n));
        lemma_runs_past(bm, total, n, s + 1, b);
    }
}

/// Locate the start of the first clear run of length >= `count` within the
/// first `total_bits` bits of `bitmap`. Bits past `total_bits` are treated as
/// set (unavailable). A run of no bits is found at the front.
pub fn find_clear_run(bitmap: &[u8], total_bits: usize, count: usize) -> (r: Option<usize>)
    requires
        total_bits <= bitmap@.len() * 8,
    ensures
        count == 0 ==> r == Some(0usize),
        count > 0 ==> place_view(r) == first_run(bitmap@, total_bits as int, count as int, 0),
{
    if count == 0 {
        return Some(0);
    }
    let mut start: usize = 0;
    let mut bit: usize = 0;
    while bit < total_bits
        invariant
            total_bits <= bitmap@.len() * 8,
            count > 0,
            start <= bit <= total_bits,
            bit - start < count,
            forall|j: int| start <= j < bit ==> !#[trigger] self::bit(bitmap@, j),
            first_run(bitmap@, total_bits as int, count as int, 0) == first_run(
                bitmap@,
                total_bits as int,
                count as int,
                start as int,
            ),
        decreases total_bits - bit,
    {
        if !get_bit(bitmap, bit) {
            if bit - start + 1 >= count {
                assert(is_clear_run(bitmap@, total_bits as int, start as int, count as int));
                return Some(start);
            }
        } else {
            proof {
                lemma_runs_past(
                    bitmap@,
                    total_bits as int,
                    count as int,
                    start as int,
                    bit as int,
                );
            }
            start = bit + 1;
        }
        bit += 1;
    }
    None
}

/// How many bits from `s` on are clear.
pub open spec fn run_length(bm: Seq<u8>, total: int, s: int) -> int
    decreases total - s,
{
    if s >= total || s < 0 || bit(bm, s) {
        0
    } else {
        1 + run_length(bm, total, s + 1)
    }
}

/// The first clear run and its length.
pub open spec fn any_run(bm: Seq<u8>, total: int) -> Option<(int, int)> {
    match first_clear(bm, total, 0) {
        None => None,
        Some(s) => Some((s, run_length(bm, total, s))),
    }
}

/// A run, taken as mathematical integers.
pub open spec fn run_view(r: Option<(usize, usize)>) -> Option<(int, int)> {
    match r {
        Some((s, n)) => Some((s as int, n as int)),
        None => None,
    }
}

/// Locate the first non-empty clear run; return `(start, length)`.
pub fn find_first_clear_run(bitmap: &[u8], total_bits: usize) -> (r: Option<(usize, usize)>)
    requires
        total_bits <= bitmap@.len() * 8,
    ensures
        run_view(r) == any_run(bitmap@, total_bits as int),
{
    let mut bit: usize = 0;
    while bit < total_bits && get_bit(bitmap, bit)
        invariant
            total_bits <= bitmap@.len() * 8,
            bit <= total_bits,
            first_clear(bitmap@, total_bits as int, 0) == first_clear(
                bitmap@,
                total_bits as int,
                bit as int,
            ),
        decreases total_bits - bit,
    {
        bit += 1;
    }
    if bit >= total_bits {
        return None;
    }
    let start: usize = bit;
    while bit < total_bits && !get_bit(bitmap, bit)
        invariant
            total_bits <= bitmap@.len() * 8,
            start <= bit <= total_bits,
            run_length(bitmap@, total_bits as int, start as int) == (bit - start) + run_length(
                bitmap@,
                total_bits as int,
                bit as int,
            ),
        decreases total_bits - bit,
    {
        bit += 1;
    }
    Some((start, bit - start))
}

/// The bitmap with the `n` bits from `s` on set.
pub open spec fn marked(bm: Seq<u8>, s: int, n: int) -> Seq<u8>
    decreases n,
{
    if n <= 0 {
        bm
    } else {
        marked(with_bit(bm, s), s + 1, n - 1)
    }
}

/// The bitmap with the `n` bits from `s` on clear.
pub open spec fn cleared(bm: Seq<u8>, s: int, n: int) -> Seq<u8>
    decreases n,
{
    if n <= 0 {
        bm
    } else {
        cleared(without_bit(bm, s), s + 1, n - 1)
    }
}

/// How many of the `n` bits from `s` on are set before the first clear one.
pub open spec fn set_length(bm: Seq<u8>, s: int, n: int) -> int
    decreases n,
{
    if n <= 0 || !is_set(bm, s) {
        0
    } else {
        1 + set_length(bm, s + 1, n - 1)
    }
}

/// Marking a run sets its bits and leaves the others.
pub proof fn lemma_marked(bm: Seq<u8>, s: int, n: int)
    requires
        0 <= s,
        0 <= n,
        s + n <= bm.len() * 8,
    ensures
        marked(bm, s, n).len() == bm.len(),
        forall|j: int|
            0 <= j < bm.len() * 8 ==> (#[trigger] bit(marked(bm, s, n), j)) == (s <= j < s + n
                || bit(bm, j)),
    decreases n,
{
    if n > 0 {
        let next = with_bit(bm, s);
        lemma_with_bit(bm, s, s);
        lemma_marked(next, s + 1, n - 1);
        assert forall|j: int| 0 <= j < bm.len() * 8 implies (#[trigger] bit(marked(bm, s, n), j))
            == (s <= j < s + n || bit(bm, j)) by {
            lemma_with_bit(bm, s, j);
            assert(bit(marked(next, s + 1, n - 1), j) == (s + 1 <= j < s + n || bit(next, j)));
        }
    }
}

/// Clearing a run clears its bits and leaves the others.
pub proof fn lemma_cleared(bm: Seq<u8>, s: int, n: int)
    requires
        0 <= s,
        0 <= n,
        s + n <= bm.len() * 8,
    ensures
        cleared(bm, s, n).len() == bm.len(),
        forall|j: int|
            0 <= j < bm.len() * 8 ==> (#[trigger] bit(cleared(bm, s, n), j)) == (!(s <= j < s + n)
                && bit(bm, j)),
    decreases n,
{
    if n > 0 {
        let next = without_bit(bm, s);
        lemma_without_bit(bm, s, s);
        lemma_cleared(next, s + 1, n - 1);
        assert forall|j: int| 0 <= j < bm.len() * 8 implies (#[trigger] bit(cleared(bm, s, n), j))
            == (!(s <= j < s + n) && bit(bm, j)) by {
            lemma_without_bit(bm, s, j);
            assert(bit(cleared(next, s + 1, n - 1), j) == (!(s + 1 <= j < s + n) && bit(next, j)));
        }
    }
}

/// Clearing what was marked gives back the bitmap, if the run was clear.
pub proof fn law_mark_then_clear(bm: Seq<u8>, total: int, s: int, n: int)
    requires
        0 <= n,
        total <= bm.len() * 8,
        is_clear_run(bm, total, s, n),
    ensures
        cleared(marked(bm, s, n), s, n) == bm,
{
    lemma_marked(bm, s, n);
    let m = marked(bm, s, n);
    lemma_cleared(m, s, n);
    let c = cleared(m, s, n);
    assert forall|i: int| 0 <= i < c.len() * 8 implies (#[trigger] bit(c, i)) == bit(bm, i) by {
        assert(bit(m, i) == (s <= i < s + n || bit(bm, i)));
    }
    lemma_same_bits(c, bm);
}

/// A first clear bit is clear, and all before it are set.
pub proof fn lemma_first_clear(bm: Seq<u8>, total: int, i: int)
    requires
        0 <= i,
    ensures
        match first_clear(bm, total, i) {
            Some(s) => i <= s < total && s < bm.len() * 8 && !bit(bm, s) && forall|j: int|
                i <= j < s ==> #[trigger] bit(bm, j),
            None => forall|j: int| i <= j < total && j < bm.len() * 8 ==> #[trigger] bit(bm, j),
        },
    decreases total - i,
{
    if i < total && i < bm.len() * 8 && bit(bm, i) {
        lemma_first_clear(bm, total, i + 1);
    }
}

/// A first run is clear, and no run before it is.
pub proof fn lemma_first_run(bm: Seq<u8>, total: int, n: int, s: int)
    requires
        0 <= s,
        0 < n,
    ensures
        match first_run(bm, total, n, s) {
            Some(t) => s <= t && is_clear_run(bm, total, t, n) && forall|u: int|
                s <= u < t ==> !#[trigger] is_clear_run(bm, total, u, n),
            None => forall|u: int| s <= u ==> !#[trigger] is_clear_run(bm, total, u, n),
        },
    decreases total - s,
{
    if s + n <= total && !is_clear_run(bm, total, s, n) {
        lemma_first_run(bm, total, n, s + 1);
    }
}

/// The run at `s` is clear, and ends at a set bit or at the end.
pub proof fn lemma_run_length(bm: Seq<u8>, total: int, s: int)
    requires
        0 <= s <= total,
    ensures
        is_clear_run(bm, total, s, run_length(bm, total, s)),
        run_length(bm, total, s) >= 0,
        s + run_length(bm, total, s) == total || bit(bm, s + run_length(bm, total, s)),
    decreases total - s,
{
    if s < total && !bit(bm, s) {
        lemma_run_length(bm, total, s + 1);
    }
}

/// The bits before a set run ends are set.
pub proof fn lemma_set_length(bm: Seq<u8>, s: int, n: int)
    requires
        0 <= s,
        0 <= n,
    ensures
        0 <= set_length(bm, s, n) <= n,
        forall|j: int| s <= j < s + set_length(bm, s, n) ==> #[trigger] is_set(bm, j),
        set_length(bm, s, n) < n ==> !is_set(bm, s + set_length(bm, s, n)),
    decreases n,
{
    if n > 0 && is_set(bm, s) {
        lemma_set_length(bm, s + 1, n - 1);
    }
}

/// Bit `i` of a bitmap is bit `i % 8` of byte `i / 8`, the lowest bit first.
pub proof fn law_bit_order(bm: Seq<u8>, i: int)
    requires
        0 <= i < bm.len() * 8,
    ensures
        ({
            let x = bm[i / 8] as int;
            &&& i % 8 == 0 ==> (bit(bm, i) <==> x % 2 == 1)
            &&& i % 8 == 1 ==> (bit(bm, i) <==> x / 2 % 2 == 1)
            &&& i % 8 == 2 ==> (bit(bm, i) <==> x / 4 % 2 == 1)
            &&& i % 8 == 3 ==> (bit(bm, i) <==> x / 8 % 2 == 1)
            &&& i % 8 == 4 ==> (bit(bm, i) <==> x / 16 % 2 == 1)
            &&& i % 8 == 5 ==> (bit(bm, i) <==> x / 32 % 2 == 1)
            &&& i % 8 == 6 ==> (bit(bm, i) <==> x / 64 % 2 == 1)
            &&& i % 8 == 7 ==> (bit(bm, i) <==> x / 128 == 1)
        }),
{
    let x = bm[i / 8];
    assert((byte_bit(x, 0) <==> x % 2 == 1) && (byte_bit(x, 1) <==> x / 2 % 2 == 1) && (byte_bit(
        x,
        2,
    ) <==> x / 4 % 2 == 1) && (byte_bit(x, 3) <==> x / 8 % 2 == 1) && (byte_bit(x, 4) <==> x / 16
        % 2 == 1) && (byte_bit(x, 5) <==> x / 32 % 2 == 1) && (byte_bit(x, 6) <==> x / 64 % 2 == 1)
        && (byte_bit(x, 7) <==> x / 128 == 1)) by (bit_vector);
}

/// The first clear bit is clear, and all bits before it are set.
pub proof fn law_first_clear_bit(bm: Seq<u8>, total: int, from: int)
    requires
        0 <= from,
    ensures
        match first_clear(bm, total, from) {
            Some(s) => from <= s < total && s < bm.len() * 8 && !bit(bm, s) && forall|j: int|
                from <= j < s ==> #[trigger] bit(bm, j),
            None => forall|j: int|
                from <= j < total && j < bm.len() * 8 ==> #[trigger] bit(bm, j),
        },
    decreases total - from,
{
    if from < total && from < bm.len() * 8 && bit(bm, from) {
        law_first_clear_bit(bm, total, from + 1);
    }
}

/// The first clear run of a length is clear, and no run of that length before
/// it is.
pub proof fn law_first_clear_run_of_length(bm: Seq<u8>, total: int, n: int, from: int)
    requires
        0 <= from,
        n > 0,
    ensures
        match first_run(bm, total, n, from) {
            Some(s) => from <= s && is_clear_run(bm, total, s, n) && forall|k: int|
                from <= k < s ==> !#[trigger] is_clear_run(bm, total, k, n),
            None => forall|k: int| from <= k ==> !#[trigger] is_clear_run(bm, total, k, n),
        },
    decreases total - from,
{
    if from + n <= total && !is_clear_run(bm, total, from, n) {
        law_first_clear_run_of_length(bm, total, n, from + 1);
    }
}

/// The first clear run starts at the first clear bit and goes on to the next
/// set bit or to the end.
pub proof fn law_first_clear_run(bm: Seq<u8>, total: int)
    requires
        0 <= total <= bm.len() * 8,
    ensures
        match any_run(bm, total) {
            Some((s, n)) => {
                &&& n > 0
                &&& is_clear_run(bm, total, s, n)
                &&& s + n == total || bit(bm, s + n)
                &&& forall|j: int| 0 <= j < s ==> #[trigger] bit(bm, j)
            },
            None => forall|j: int| 0 <= j < total ==> #[trigger] bit(bm, j),
        },
{
    law_first_clear_bit(bm, total, 0);
    if let Some(s) = first_clear(bm, total, 0) {
        lemma_run_length(bm, total, s);
    }
}

} // verus!
