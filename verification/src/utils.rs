//! Times and strings as Windows writes them.

use vstd::prelude::*;

verus! {

/// The Unix epoch (1970-01-01) in Windows time: 100-nanosecond intervals since
/// 1601-01-01.
pub const UNIX_EPOCH_FILETIME: u64 = 116444736000000000;

/// `n / d` without the part behind the point.
pub open spec fn toward_zero(n: int, d: int) -> int {
    if n >= 0 { n / d } else { -((-n) / d) }
}

/// An APFS time in Windows time.
pub open spec fn filetime_of(nanos: i64) -> int {
    UNIX_EPOCH_FILETIME + toward_zero(nanos as int, 100)
}

/// Convert an APFS timestamp (nanoseconds since the Unix epoch) to a Windows
/// FILETIME (100-nanosecond intervals since 1601-01-01).
pub fn apfs_time_to_filetime(apfs_time: i64) -> (t: u64)
    ensures
        t == filetime_of(apfs_time),
{
    if apfs_time >= 0 {
        UNIX_EPOCH_FILETIME + (apfs_time / 100) as u64
    } else {
        // The most negative number has no positive counterpart.
        let below: u64 = (-(apfs_time + 1)) as u64 + 1;
        UNIX_EPOCH_FILETIME - below / 100
    }
}

/// A number held between the smallest and the largest that 64 bits with a
/// sign can say.
pub open spec fn held(n: int) -> i64 {
    if n > i64::MAX {
        i64::MAX
    } else if n < i64::MIN {
        i64::MIN
    } else {
        n as i64
    }
}

/// The 64 bits of `n`, read with a sign.
pub open spec fn signed(n: u64) -> int {
    if n <= i64::MAX { n as int } else { n - 0x1_0000_0000_0000_0000 }
}

/// A Windows time in APFS time. Times before the Unix epoch, among them 0,
/// which stands for "do not change", have none.
pub open spec fn nanos_of(filetime: u64) -> Option<i64> {
    if filetime < UNIX_EPOCH_FILETIME {
        None
    } else {
        Some(held(signed((filetime - UNIX_EPOCH_FILETIME) as u64) * 100))
    }
}

/// Convert a Windows FILETIME (100-ns ticks since 1601-01-01) to APFS
/// nanoseconds (since 1970-01-01). Returns `None` for 0, the sentinel meaning
/// "do not change".
pub fn filetime_to_apfs_nanos(filetime: u64) -> (n: Option<i64>)
    ensures
        n == nanos_of(filetime),
{
    if filetime < UNIX_EPOCH_FILETIME {
        return None;
    }
    let intervals: u64 = filetime - UNIX_EPOCH_FILETIME;
    if intervals <= i64::MAX as u64 {
        if intervals > (i64::MAX / 100) as u64 {
            Some(i64::MAX)
        } else {
            Some((intervals * 100) as i64)
        }
    } else {
        let below: u64 = u64::MAX - intervals;
        if below >= 92233720368547758 {
            Some(i64::MIN)
        } else {
            Some(-((below + 1) as i64) * 100)
        }
    }
}

/// Times of the Unix epoch and after come back from Windows time, without
/// what is shorter than an interval of 100 nanoseconds.
pub proof fn law_filetime_round_trip(nanos: i64)
    requires
        nanos >= 0,
    ensures
        nanos_of(filetime_of(nanos) as u64) == Some((nanos - nanos % 100) as i64),
{
}

/// The UTF-16 units of a character.
pub open spec fn units_of(c: char) -> Seq<u16> {
    let n = c as int;
    if n < 0x10000 {
        seq![n as u16]
    } else {
        seq![(0xD800 + (n - 0x10000) / 0x400) as u16, (0xDC00 + (n - 0x10000) % 0x400) as u16]
    }
}

/// A text in UTF-16.
pub open spec fn encoded(s: Seq<char>) -> Seq<u16>
    decreases s.len(),
{
    if s.len() == 0 {
        seq![]
    } else {
        encoded(s.drop_last()) + units_of(s.last())
    }
}

/// The text that is written in UTF-16, if it is well formed: every surrogate
/// belongs to a pair.
pub open spec fn decoded(u: Seq<u16>) -> Option<Seq<char>>
    decreases u.len(),
{
    if u.len() == 0 {
        Some(seq![])
    } else if u.last() < 0xD800 || u.last() > 0xDFFF {
        match decoded(u.drop_last()) {
            None => None,
            Some(s) => Some(s.push(u.last() as char)),
        }
    } else if u.last() >= 0xDC00 && u.len() >= 2 && 0xD800 <= u[u.len() - 2] < 0xDC00 {
        match decoded(u.take(u.len() - 2)) {
            None => None,
            Some(s) => Some(
                s.push(
                    (0x10000 + (u[u.len() - 2] - 0xD800) * 0x400 + (u.last() - 0xDC00)) as char,
                ),
            ),
        }
    } else {
        None
    }
}

/// The text that `String::from_utf16_lossy` makes of units that are not well
/// formed.
pub uninterp spec fn mended_text(u: Seq<u16>) -> Seq<char>;

/// The text of UTF-16 units.
pub open spec fn wide_text(u: Seq<u16>) -> Seq<char> {
    match decoded(u) {
        Some(s) => s,
        None => mended_text(u),
    }
}

/// Decode UTF-16. `String::from_utf16_lossy` gives the text that well-formed
/// units encode, and else one in which U+FFFD stands for what is malformed.
/// Where the replacements stand is not stated.
#[verifier::external_body]
fn text_from_utf16(u: &[u16]) -> (s: String)
    ensures
        s@ == (match decoded(u@) {
            Some(t) => t,
            None => mended_text(u@),
        }),
{
    String::from_utf16_lossy(u)
}

fn push_units(out: &mut Vec<u16>, c: char)
    ensures
        final(out)@ == old(out)@ + units_of(c),
{
    let n: u32 = c as u32;
    if n < 0x10000 {
        out.push(n as u16);
    } else {
        let m: u32 = n - 0x10000;
        assert(m / 0x400 < 0x400);
        out.push((0xD800 + m / 0x400) as u16);
        out.push((0xDC00 + m % 0x400) as u16);
    }
    assert(out@ =~= old(out)@ + units_of(c));
}

/// Convert a path to UTF-16 for Windows, with the zero that ends it.
pub fn path_to_wide(path: &str) -> (w: Vec<u16>)
    ensures
        w@ == encoded(path@).push(0),
{
    let mut w: Vec<u16> = Vec::new();
    let n: usize = path.unicode_len();
    let mut i: usize = 0;
    while i < n
        invariant
            i <= n,
            n == path@.len(),
            w@ == encoded(path@.take(i as int)),
        decreases n - i,
    {
        push_units(&mut w, path.get_char(i));
        assert(path@.take(i + 1).drop_last() =~= path@.take(i as int));
        i += 1;
    }
    assert(path@.take(n as int) =~= path@);
    w.push(0);
    w
}

/// How many units stand before the first zero.
pub open spec fn wide_len(u: Seq<u16>) -> int
    decreases u.len(),
{
    if u.len() == 0 || u[0] == 0 {
        0
    } else {
        1 + wide_len(u.skip(1))
    }
}

/// How many units stand before the first zero, or all of them.
pub fn wide_length(wide: &[u16]) -> (n: usize)
    ensures
        n == wide_len(wide@),
        n <= wide.len(),
{
    let mut i: usize = 0;
    assert(wide@.skip(0) =~= wide@);
    while i < wide.len() && wide[i] != 0
        invariant
            i <= wide.len(),
            wide_len(wide@) == i + wide_len(wide@.skip(i as int)),
        decreases wide.len() - i,
    {
        assert(wide@.skip(i as int).skip(1) =~= wide@.skip(i + 1));
        i += 1;
    }
    i
}

/// Convert a path in UTF-16 from Windows, up to the zero that ends it.
pub fn wide_to_path(wide: &[u16]) -> (s: String)
    ensures
        s@ == wide_text(wide@.take(wide_len(wide@))),
{
    let n: usize = wide_length(wide);
    assert(wide@.subrange(0, n as int) =~= wide@.take(n as int));
    text_from_utf16(vstd::slice::slice_subrange(wide, 0, n))
}

proof fn lemma_units(c: char)
    ensures
        0 <= c as int <= 0x10FFFF,
        !(0xD800 <= c as int <= 0xDFFF),
        (c as int) < 0x10000 ==> units_of(c).len() == 1 && units_of(c)[0] == c as int && (
        units_of(c)[0] as char) == c,
        (c as int) >= 0x10000 ==> units_of(c).len() == 2 && 0xD800 <= units_of(c)[0] < 0xDC00
            && 0xDC00 <= units_of(c)[1] <= 0xDFFF && (0x10000 + (units_of(c)[0] - 0xD800) * 0x400
            + (units_of(c)[1] - 0xDC00)) as char == c,
        c != '\0' ==> !units_of(c).contains(0),
{
    let n = c as int;
    if n >= 0x10000 {
        let m = n - 0x10000;
        assert(m == (m / 0x400) * 0x400 + m % 0x400);
    }
    assert(n as char == c);
}

proof fn lemma_decoded_encoded(s: Seq<char>)
    ensures
        decoded(encoded(s)) == Some(s),
    decreases s.len(),
{
    if s.len() == 0 {
        assert(s =~= seq![]);
    } else {
        let e = encoded(s.drop_last());
        let c = s.last();
        lemma_decoded_encoded(s.drop_last());
        let u = encoded(s);
        lemma_units(c);
        if (c as int) < 0x10000 {
            assert(u.drop_last() =~= e);
        } else {
            assert(u.take(u.len() - 2) =~= e);
            assert(u[u.len() - 2] == units_of(c)[0] && u.last() == units_of(c)[1]);
        }
        assert(s.drop_last().push(c) =~= s);
    }
}

proof fn lemma_no_zero(s: Seq<char>)
    requires
        !s.contains('\0'),
    ensures
        !encoded(s).contains(0),
    decreases s.len(),
{
    if s.len() > 0 {
        assert forall|i: int| 0 <= i < s.drop_last().len() implies s.drop_last()[i] != '\0' by {
            assert(s.contains(s[i]));
        }
        lemma_no_zero(s.drop_last());
        assert(s.contains(s.last()));
        let e = encoded(s.drop_last());
        assert forall|i: int| 0 <= i < encoded(s).len() implies encoded(s)[i] != 0 by {
            lemma_units(s.last());
            if i < e.len() {
                assert(e.contains(e[i]));
            } else {
                assert(units_of(s.last()).contains(units_of(s.last())[i - e.len()]));
            }
        }
    }
}

proof fn lemma_wide_len(u: Seq<u16>)
    requires
        !u.contains(0),
    ensures
        wide_len(u.push(0)) == u.len(),
    decreases u.len(),
{
    if u.len() > 0 {
        assert(u.contains(u[0]));
        assert forall|i: int| 0 <= i < u.skip(1).len() implies u.skip(1)[i] != 0 by {
            assert(u.contains(u[i + 1]));
        }
        lemma_wide_len(u.skip(1));
        assert(u.push(0).skip(1) =~= u.skip(1).push(0));
    }
}

/// A path without zeros comes back from its UTF-16 form.
pub proof fn law_wide_round_trip(path: Seq<char>)
    requires
        !path.contains('\0'),
    ensures
        ({
            let w = encoded(path).push(0);
            wide_text(w.take(wide_len(w))) == path
        }),
{
    lemma_no_zero(path);
    lemma_wide_len(encoded(path));
    let w = encoded(path).push(0);
    assert(w.take(encoded(path).len() as int) =~= encoded(path));
    lemma_decoded_encoded(path);
}

/// A Windows time whose nanoseconds since 1970 do not fit 64 bits is the latest
/// time that does.
pub proof fn law_late_times_are_held(filetime: u64)
    requires
        92233720368547758 < filetime - 116444736000000000 <= i64::MAX,
    ensures
        nanos_of(filetime) == Some(i64::MAX),
{
}

/// A path in UTF-16 ends at the first zero, or where the units end.
pub proof fn law_wide_length(u: Seq<u16>)
    ensures
        0 <= wide_len(u) <= u.len(),
        forall|i: int| 0 <= i < wide_len(u) ==> (#[trigger] u[i]) != 0,
        wide_len(u) < u.len() ==> u[wide_len(u)] == 0,
    decreases u.len(),
{
    if u.len() > 0 && u[0] != 0 {
        law_wide_length(u.skip(1));
        let n = wide_len(u.skip(1));
        assert forall|i: int| 0 <= i < wide_len(u) implies (#[trigger] u[i]) != 0 by {
            if i > 0 {
                assert(u.skip(1)[i - 1] == u[i]);
            }
        }
        if n < u.skip(1).len() {
            assert(u.skip(1)[n] == u[n + 1]);
        }
    }
}

} // verus!
