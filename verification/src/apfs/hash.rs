//! CRC32C (Castagnoli) and APFS filename hashing.
//!
//! Hashed catalogs key directory records by the CRC32C of the file name
//! encoded as UTF-32LE with a trailing NUL. On case-insensitive volumes the
//! name is folded to lowercase first. Only the ASCII subset of the folding is
//! implemented; NFD normalisation is a no-op for ASCII names.

use crate::apfs::bytes::{bytes_u32, lemma_to_le_len, push_u32, to_le};
use crate::apfs::error::{plain, ApfsError, Fault};
use crate::apfs::text::{msg_str, text_str};
use vstd::utf8::is_ascii_chars;
use vstd::prelude::*;

verus! {

/// The reversed Castagnoli polynomial.
pub const POLY_CASTAGNOLI_REV: u32 = 0x82F6_3B78;

/// One division step: the register shifted by one bit, reduced by the
/// polynomial when the bit that falls out is set.
pub open spec fn crc_bit(c: u32) -> u32 {
    if c & 1 != 0 { (c >> 1) ^ 0x82F6_3B78 } else { c >> 1 }
}

/// Eight division steps.
pub open spec fn crc_byte(c: u32) -> u32 {
    crc_bit(crc_bit(crc_bit(crc_bit(crc_bit(crc_bit(crc_bit(crc_bit(c))))))))
}

/// The register after the bytes `s`.
pub open spec fn crc_register(c: u32, s: Seq<u8>) -> u32
    decreases s.len(),
{
    if s.len() == 0 {
        c
    } else {
        crc_byte(crc_register(c, s.drop_last()) ^ (s.last() as u32))
    }
}

/// The CRC that continues `seed` over the bytes `s`.
pub open spec fn crc_update(seed: u32, s: Seq<u8>) -> u32 {
    !crc_register(!seed, s)
}

/// The CRC of the bytes `s`.
pub open spec fn crc(s: Seq<u8>) -> u32 {
    crc_update(0, s)
}

/// Eight steps for every value of a byte.
fn table() -> (t: Vec<u32>)
    ensures
        t@.len() == 256,
        forall|i: int| 0 <= i < 256 ==> #[trigger] t@[i] == crc_byte(i as u32),
{
    let mut t: Vec<u32> = Vec::new();
    let mut i: u32 = 0;
    while i < 256
        invariant
            i <= 256,
            t@.len() == i,
            forall|k: int| 0 <= k < i ==> #[trigger] t@[k] == crc_byte(k as u32),
        decreases 256 - i,
    {
        let mut c: u32 = i;
        let mut k: u32 = 0;
        let ghost mut done: Seq<u32> = seq![c];
        while k < 8
            invariant
                k <= 8,
                done.len() == k + 1,
                done[0] == i,
                done[k as int] == c,
                forall|j: int| 0 <= j < k ==> done[j + 1] == crc_bit(#[trigger] done[j]),
            decreases 8 - k,
        {
            c = if c & 1 != 0 {
                (c >> 1) ^ POLY_CASTAGNOLI_REV
            } else {
                c >> 1
            };
            proof {
                done = done.push(c);
            }
            k += 1;
        }
        proof {
            assert(done[1] == crc_bit(done[0]));
            assert(done[2] == crc_bit(done[1]));
            assert(done[3] == crc_bit(done[2]));
            assert(done[4] == crc_bit(done[3]));
            assert(done[5] == crc_bit(done[4]));
            assert(done[6] == crc_bit(done[5]));
            assert(done[7] == crc_bit(done[6]));
            assert(done[8] == crc_bit(done[7]));
        }
        t.push(c);
        i += 1;
    }
    t
}

/// Eight steps act on the low byte only, and shift the rest.
proof fn lemma_crc_byte_split(x: u32)
    ensures
        crc_byte(x) == (x >> 8) ^ crc_byte(x & 0xFF),
        x & 0xFF < 256,
{
    assert(crc_byte(x) == (x >> 8) ^ crc_byte(x & 0xFF)) by (bit_vector);
    assert(x & 0xFF < 256) by (bit_vector);
}

/// Update an existing CRC with `bytes`.
pub fn crc32c_update(seed: u32, bytes: &[u8]) -> (c: u32)
    ensures
        c == crc_update(seed, bytes@),
{
    let t = table();
    let mut c: u32 = !seed;
    let mut i: usize = 0;
    while i < bytes.len()
        invariant
            i <= bytes.len(),
            t@.len() == 256,
            forall|k: int| 0 <= k < 256 ==> #[trigger] t@[k] == crc_byte(k as u32),
            c == crc_register(!seed, bytes@.subrange(0, i as int)),
        decreases bytes.len() - i,
    {
        let b: u32 = bytes[i] as u32;
        let x: u32 = c ^ b;
        proof {
            lemma_crc_byte_split(x);
            assert((c ^ b) >> 8 == c >> 8) by (bit_vector)
                requires
                    b < 256,
            ;
            let next = bytes@.subrange(0, i + 1);
            assert(next.drop_last() =~= bytes@.subrange(0, i as int));
        }
        c = (c >> 8) ^ t[(x & 0xFF) as usize];
        i += 1;
    }
    assert(bytes@.subrange(0, i as int) =~= bytes@);
    !c
}

/// One-shot CRC32C of `bytes` with the standard `0` seed.
pub fn crc32c(bytes: &[u8]) -> (c: u32)
    ensures
        c == crc(bytes@),
{
    crc32c_update(0, bytes)
}

/// The code point of a character, with ASCII letters in lower case when
/// `fold` is set.
pub open spec fn code_point(c: char, fold: bool) -> u32 {
    if fold && 'A' <= c <= 'Z' { (c as u32 + 32) as u32 } else { c as u32 }
}

/// The UTF-32LE encoding of a name.
pub open spec fn utf32(name: Seq<char>, fold: bool) -> Seq<u8>
    decreases name.len(),
{
    if name.len() == 0 {
        Seq::empty()
    } else {
        utf32(name.drop_last(), fold) + bytes_u32(code_point(name.last(), fold))
    }
}

/// The 22-bit hash of a name.
pub open spec fn name_hash(name: Seq<char>, fold: bool) -> u32 {
    crc(utf32(name, fold) + bytes_u32(0)) & 0x003F_FFFF
}

/// The hash of a name, or the refusal of a name outside ASCII.
pub open spec fn name_hash_outcome(name: Seq<char>, fold: bool) -> Result<u32, Fault> {
    if is_ascii_chars(name) {
        Ok(name_hash(name, fold))
    } else {
        Err(
            Fault::Unsupported(
                msg_str(
                    "non-ASCII filename '"@,
                    name,
                    "': APFS Unicode case-fold/NFD not implemented"@,
                ),
            ),
        )
    }
}

/// Compute the APFS hashed-drec name hash. The 22-bit value goes into the top
/// of the `name_len_and_hash` key field.
///
/// With `case_insensitive` ASCII letters are folded to lowercase before
/// hashing. Names with non-ASCII bytes return `Unsupported`.
pub fn drec_name_hash(name: &str, case_insensitive: bool) -> (r: Result<u32, ApfsError>)
    ensures
        plain(r) == name_hash_outcome(name@, case_insensitive),
{
    if !name.is_ascii() {
        return Err(
            ApfsError::Unsupported(
                text_str(
                    "non-ASCII filename '",
                    name,
                    "': APFS Unicode case-fold/NFD not implemented",
                ),
            ),
        );
    }
    let mut encoded: Vec<u8> = Vec::new();
    let count: usize = name.unicode_len();
    let mut i: usize = 0;
    while i < count
        invariant
            i <= count,
            count == name@.len(),
            encoded@ == utf32(name@.subrange(0, i as int), case_insensitive),
        decreases count - i,
    {
        let c: char = name.get_char(i);
        let cp: u32 = if case_insensitive && 'A' <= c && c <= 'Z' {
            c as u32 + 32
        } else {
            c as u32
        };
        proof {
            let next = name@.subrange(0, i + 1);
            assert(next.drop_last() =~= name@.subrange(0, i as int));
        }
        push_u32(&mut encoded, cp);
        i += 1;
    }
    assert(name@.subrange(0, i as int) =~= name@);
    push_u32(&mut encoded, 0);
    Ok(crc32c(encoded.as_slice()) & 0x003F_FFFF)
}

proof fn lemma_register_concat(c: u32, a: Seq<u8>, b: Seq<u8>)
    ensures
        crc_register(c, a + b) == crc_register(crc_register(c, a), b),
    decreases b.len(),
{
    if b.len() == 0 {
        assert(a + b =~= a);
    } else {
        lemma_register_concat(c, a, b.drop_last());
        assert((a + b).drop_last() =~= a + b.drop_last());
    }
}

/// A CRC can be computed piece by piece: continuing the CRC of the first part
/// over the second gives the CRC of both.
pub proof fn law_crc_in_pieces(seed: u32, a: Seq<u8>, b: Seq<u8>)
    ensures
        crc_update(crc_update(seed, a), b) == crc_update(seed, a + b),
{
    lemma_register_concat(!seed, a, b);
    let r = crc_register(!seed, a);
    assert(!(!r) == r) by (bit_vector);
}

/// The CRC of nothing is zero.
pub proof fn law_crc_of_nothing()
    ensures
        crc(Seq::<u8>::empty()) == 0,
{
    assert(!(!0u32) == 0) by (bit_vector);
}

/// The hash of a name fits 22 bits.
pub proof fn law_name_hash_is_22_bit(name: Seq<char>, fold: bool)
    ensures
        name_hash(name, fold) <= 0x003F_FFFF,
{
    let c = crc(utf32(name, fold) + bytes_u32(0));
    assert(c & 0x003F_FFFF <= 0x003F_FFFF) by (bit_vector);
}

/// Whether two names are the same up to the case of ASCII letters.
pub open spec fn same_folded(a: Seq<char>, b: Seq<char>) -> bool {
    a.len() == b.len() && forall|i: int|
        0 <= i < a.len() ==> code_point(#[trigger] a[i], true) == code_point(b[i], true)
}

proof fn lemma_utf32_folded(a: Seq<char>, b: Seq<char>)
    requires
        same_folded(a, b),
    ensures
        utf32(a, true) == utf32(b, true),
    decreases a.len(),
{
    if a.len() > 0 {
        assert forall|i: int| 0 <= i < a.len() - 1 implies code_point(
            #[trigger] a.drop_last()[i],
            true,
        ) == code_point(b.drop_last()[i], true) by {
            assert(a.drop_last()[i] == a[i]);
        }
        lemma_utf32_folded(a.drop_last(), b.drop_last());
        assert(code_point(a[a.len() - 1], true) == code_point(b[a.len() - 1], true));
    }
}

/// Without regard to case, names that differ only in the case of ASCII
/// letters have the same hash.
pub proof fn law_folded_names_hash_alike(a: Seq<char>, b: Seq<char>)
    requires
        same_folded(a, b),
    ensures
        name_hash(a, true) == name_hash(b, true),
{
    lemma_utf32_folded(a, b);
}

/// The words of a name's encoding.
proof fn lemma_utf32_words(name: Seq<char>, fold: bool)
    ensures
        utf32(name, fold).len() == 4 * name.len(),
        forall|i: int, j: int|
            0 <= i < name.len() && 0 <= j < 4 ==> #[trigger] utf32(name, fold)[4 * i + j]
                == bytes_u32(code_point(name[i], fold))[j],
    decreases name.len(),
{
    if name.len() > 0 {
        let front = name.drop_last();
        let n = front.len() as int;
        let last = bytes_u32(code_point(name.last(), fold));
        lemma_utf32_words(front, fold);
        lemma_to_le_len(code_point(name.last(), fold) as nat, 4);
        assert forall|i: int, j: int| 0 <= i < name.len() && 0 <= j < 4 implies #[trigger] utf32(
            name,
            fold,
        )[4 * i + j] == bytes_u32(code_point(name[i], fold))[j] by {
            if i < n {
                assert(utf32(front, fold)[4 * i + j] == bytes_u32(code_point(front[i], fold))[j]);
            } else {
                assert(utf32(name, fold)[4 * n + j] == last[j]);
            }
        }
    }
}

proof fn lemma_ascii_code_point(c: char, fold: bool)
    requires
        c as int <= 127,
    ensures
        '\0' <= c <= '\u{7f}',
        code_point(c, fold) == (if fold && 65 <= c as int <= 90 {
            c as int + 32
        } else {
            c as int
        }),
{
}

/// A word that fits a byte is that byte and three zeros.
proof fn lemma_small_word(x: u32)
    requires
        x < 256,
    ensures
        bytes_u32(x) == seq![x as u8, 0u8, 0u8, 0u8],
{
    reveal_with_fuel(to_le, 5);
    assert(bytes_u32(x) =~= seq![x as u8, 0u8, 0u8, 0u8]);
}

/// The hash of an ASCII name is the CRC of its code points, each in four bytes
/// with the lowest in front, and of four zeros behind them, without its ten
/// highest bits. Where the case does not matter the letters A to Z count as a
/// to z.
pub proof fn law_name_hash_is_crc_of_words(name: Seq<char>, fold: bool, b: Seq<u8>)
    requires
        forall|i: int| 0 <= i < name.len() ==> (#[trigger] name[i]) as int <= 127,
        b.len() == 4 * (name.len() + 1),
        forall|i: int|
            0 <= i < name.len() ==> #[trigger] b[4 * i] == (if fold && 65 <= name[i] as int <= 90 {
                name[i] as int + 32
            } else {
                name[i] as int
            }),
        forall|i: int, j: int|
            0 <= i < name.len() && 1 <= j < 4 ==> #[trigger] b[4 * i + j] == 0,
        forall|j: int| 0 <= j < 4 ==> #[trigger] b[4 * name.len() + j] == 0,
    ensures
        name_hash_outcome(name, fold) == Ok::<u32, Fault>((crc(b) % 0x40_0000) as u32),
{
    let s = utf32(name, fold) + bytes_u32(0);
    lemma_utf32_words(name, fold);
    lemma_small_word(0);
    assert forall|k: int| 0 <= k < b.len() implies s[k] == b[k] by {
        let i = k / 4;
        let j = k % 4;
        assert(k == 4 * i + j);
        if i < name.len() {
            let c = name[i];
            assert(c as int <= 127);
            lemma_ascii_code_point(c, fold);
            lemma_small_word(code_point(c, fold));
            assert(utf32(name, fold)[4 * i + j] == bytes_u32(code_point(c, fold))[j]);
            if j == 0 {
                assert(b[4 * i] == b[k]);
            } else {
                assert(b[4 * i + j] == 0);
            }
        } else {
            assert(i == name.len());
            assert(b[4 * name.len() + j] == 0);
        }
    }
    assert(s.len() == b.len());
    assert(s =~= b);
    let c = crc(b);
    assert(c & 0x003F_FFFF == c % 0x40_0000) by (bit_vector);
    assert forall|i: int| 0 <= i < name.len() implies '\0' <= #[trigger] name[i] <= '\u{7f}' by {
        lemma_ascii_code_point(name[i], fold);
    }
}

/// A name with a character outside ASCII has no hash.
pub proof fn law_no_hash_outside_ascii(name: Seq<char>, fold: bool, i: int)
    requires
        0 <= i < name.len(),
        name[i] as int > 127,
    ensures
        name_hash_outcome(name, fold) matches Err(Fault::Unsupported(_)),
{
    assert(!('\0' <= name[i] <= '\u{7f}'));
}

} // verus!
