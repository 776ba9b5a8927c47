//! A file's extent list as one contiguous fork of bytes.

use crate::apfs::bytes::{push_bytes, put_bytes, splice};
use crate::apfs::catalog::FileExtentVal;
use crate::apfs::catalog::records::extent_length;
use crate::apfs::device::{in_range, ReadAt, WriteAt};
use crate::apfs::error::{plain, ApfsError, Fault, IoError};
use crate::apfs::object::agrees;
use vstd::slice::slice_subrange;
use vstd::prelude::*;

verus! {

/// A number held down to what 64 bits can say.
pub open spec fn sat(x: int) -> u64 {
    if x > u64::MAX {
        u64::MAX
    } else {
        x as u64
    }
}

/// The spans `(logical start, physical start, length)` of the extents from `i`
/// on, in bytes, the first of them at logical position `log`. Extents without
/// bytes have no span. A position past 64 bits stays at the largest number,
/// where no device has a byte.
pub open spec fn spans_from(exts: Seq<FileExtentVal>, block_size: u32, i: int, log: u64) -> Seq<
    (u64, u64, u64),
>
    decreases exts.len() - i,
{
    if i >= exts.len() || i < 0 {
        seq![]
    } else {
        let len = extent_length(exts[i]);
        if len == 0 {
            spans_from(exts, block_size, i + 1, log)
        } else {
            seq![(log, sat(exts[i].phys_block_num * block_size), len)] + spans_from(
                exts,
                block_size,
                i + 1,
                sat(log + len),
            )
        }
    }
}

/// The spans of a file.
pub open spec fn spans_of(exts: Seq<FileExtentVal>, block_size: u32) -> Seq<(u64, u64, u64)> {
    spans_from(exts, block_size, 0, 0)
}

/// Translate the on-disk extent list into a flat `(log, phys, len)` map.
pub fn build_extent_map(block_size: u32, extents: &[FileExtentVal]) -> (map: Vec<(u64, u64, u64)>)
    ensures
        map@ == spans_of(extents@, block_size),
{
    let mut map: Vec<(u64, u64, u64)> = Vec::new();
    let mut log: u64 = 0;
    let mut i: usize = 0;
    assert(map@ + spans_of(extents@, block_size) =~= spans_of(extents@, block_size));
    while i < extents.len()
        invariant
            i <= extents.len(),
            map@ + spans_from(extents@, block_size, i as int, log) == spans_of(
                extents@,
                block_size,
            ),
        decreases extents.len() - i,
    {
        let ext = &extents[i];
        let len: u64 = ext.length();
        if len != 0 {
            assert(ext.phys_block_num * block_size >= 0) by (nonlinear_arith);
            let phys: u64 = match ext.phys_block_num.checked_mul(block_size as u64) {
                Some(p) => p,
                None => u64::MAX,
            };
            let ghost before = map@;
            map.push((log, phys, len));
            let next: u64 = match log.checked_add(len) {
                Some(l) => l,
                None => u64::MAX,
            };
            proof {
                let rest = spans_from(extents@, block_size, i + 1, next);
                assert(before + (seq![(log, phys, len)] + rest) =~= map@ + rest);
            }
            log = next;
        }
        i += 1;
    }
    assert(map@ + Seq::<(u64, u64, u64)>::empty() =~= map@);
    map
}

/// Where the byte at `logical` lies, and how many bytes follow it in the same
/// span, itself included.
pub open spec fn place_from(spans: Seq<(u64, u64, u64)>, logical: int, i: int) -> Option<(u64, u64)>
    decreases spans.len() - i,
{
    if i >= spans.len() || i < 0 {
        None
    } else {
        let (log, phys, len) = spans[i];
        if log <= logical < log + len {
            Some((sat(phys + (logical - log)), (len - (logical - log)) as u64))
        } else {
            place_from(spans, logical, i + 1)
        }
    }
}

/// Where the byte at `logical` lies. Positions are 64-bit numbers.
pub open spec fn place_of(spans: Seq<(u64, u64, u64)>, logical: int) -> Option<(u64, u64)> {
    if logical > u64::MAX {
        None
    } else {
        place_from(spans, logical, 0)
    }
}

/// A place is inside a span, so at least one byte is there.
pub proof fn lemma_place(spans: Seq<(u64, u64, u64)>, logical: int, i: int)
    ensures
        place_from(spans, logical, i) matches Some((_, run)) ==> run > 0,
    decreases spans.len() - i,
{
    if 0 <= i < spans.len() {
        lemma_place(spans, logical, i + 1);
    }
}

/// Translate `logical` to the physical byte offset and the number of
/// contiguous bytes that follow inside the same on-disk extent.
pub fn translate(map: &[(u64, u64, u64)], logical: u64) -> (r: Option<(u64, u64)>)
    ensures
        r == place_of(map@, logical as int),
        r matches Some((_, run)) ==> run > 0,
{
    let mut i: usize = 0;
    while i < map.len()
        invariant
            i <= map.len(),
            place_from(map@, logical as int, i as int) == place_of(map@, logical as int),
        decreases map.len() - i,
    {
        let (log, phys, len) = map[i];
        if logical >= log && logical - log < len {
            let delta: u64 = logical - log;
            let at: u64 = match phys.checked_add(delta) {
                Some(a) => a,
                None => u64::MAX,
            };
            return Some((at, len - delta));
        }
        i += 1;
    }
    None
}

/// The first `limit` bytes of the spans from `i` on, or all of them where
/// there are fewer.
pub open spec fn fork_prefix(
    disk: Seq<u8>,
    spans: Seq<(u64, u64, u64)>,
    i: int,
    limit: int,
) -> Result<Seq<u8>, Fault>
    decreases spans.len() - i,
{
    if i >= spans.len() || i < 0 || limit <= 0 {
        Ok(seq![])
    } else {
        let (_, phys, len) = spans[i];
        let n = if len <= limit {
            len as int
        } else {
            limit
        };
        if !in_range(disk.len(), phys as int, n) {
            Err(Fault::Io(IoError::UnexpectedEof))
        } else {
            match fork_prefix(disk, spans, i + 1, limit - n) {
                Err(e) => Err(e),
                Ok(rest) => Ok(disk.subrange(phys as int, phys + n) + rest),
            }
        }
    }
}

/// The bytes of a file of `size` bytes.
pub open spec fn file_bytes(
    disk: Seq<u8>,
    block_size: u32,
    exts: Seq<FileExtentVal>,
    size: u64,
) -> Result<Seq<u8>, Fault> {
    fork_prefix(disk, spans_of(exts, block_size), 0, size as int)
}

/// Spans hold bytes.
pub open spec fn spans_hold_bytes(spans: Seq<(u64, u64, u64)>) -> bool {
    forall|i: int| 0 <= i < spans.len() ==> (#[trigger] spans[i]).2 > 0
}

/// The spans of a file hold bytes.
pub proof fn lemma_spans_hold_bytes(exts: Seq<FileExtentVal>, block_size: u32, i: int, log: u64)
    ensures
        spans_hold_bytes(spans_from(exts, block_size, i, log)),
    decreases exts.len() - i,
{
    if 0 <= i < exts.len() {
        let len = extent_length(exts[i]);
        lemma_spans_hold_bytes(exts, block_size, i + 1, log);
        lemma_spans_hold_bytes(exts, block_size, i + 1, sat(log + len));
    }
}

/// Read `n` bytes at `phys` in pieces of at most `piece` bytes.
fn stream_span<D: ReadAt>(dev: &D, phys: u64, n: u64, piece: u32, out: &mut Vec<u8>) -> (r: Result<
    (),
    ApfsError,
>)
    requires
        piece > 0,
        n > 0,
    ensures
        old(out)@.is_prefix_of(final(out)@),
        match r {
            Ok(_) => in_range(dev.bytes().len(), phys as int, n as int) && final(out)@ == old(out)@
                + dev.bytes().subrange(phys as int, phys + n),
            Err(e) => e@ is Io && (dev.reliable() ==> !in_range(
                dev.bytes().len(),
                phys as int,
                n as int,
            ) && e@ == Fault::Io(IoError::UnexpectedEof)),
        },
{
    let mut off: u64 = 0;
    let size: u64 = dev.size();
    if phys > size {
        return Err(ApfsError::Io(IoError::UnexpectedEof));
    }
    assert(old(out)@ + dev.bytes().subrange(phys as int, phys as int) =~= old(out)@);
    while off < n
        invariant
            piece > 0,
            off <= n,
            size == dev.bytes().len(),
            phys + off <= dev.bytes().len(),
            out@ == old(out)@ + dev.bytes().subrange(phys as int, phys + off),
        decreases n - off,
    {
        let left: u64 = n - off;
        let chunk: u64 = if left < piece as u64 {
            left
        } else {
            piece as u64
        };
        let ghost before = out@;
        match dev.read_at(phys + off, chunk as usize) {
            Ok(v) => {
                push_bytes(out, v.as_slice());
                assert(out@ =~= old(out)@ + dev.bytes().subrange(phys as int, phys + off + chunk));
            },
            Err(e) => {
                return Err(ApfsError::Io(e));
            },
        }
        off += chunk;
    }
    Ok(())
}

/// Bytes in front of what reading the rest gives.
pub open spec fn bytes_after(seen: Seq<u8>, rest: Result<Seq<u8>, Fault>) -> Result<
    Seq<u8>,
    Fault,
> {
    match rest {
        Err(e) => Err(e),
        Ok(more) => Ok(seen + more),
    }
}

/// Stream a file's contents to the end of `out`, one block at a time. Returns
/// the number of bytes copied. When a read fails, `out` keeps what was copied
/// before.
pub fn read_file_data<D: ReadAt>(
    dev: &D,
    block_size: u32,
    extents: &[FileExtentVal],
    logical_size: u64,
    out: &mut Vec<u8>,
) -> (r: Result<u64, ApfsError>)
    requires
        block_size > 0,
    ensures
        old(out)@.is_prefix_of(final(out)@),
        match r {
            Ok(n) => file_bytes(dev.bytes(), block_size, extents@, logical_size) == Ok::<
                Seq<u8>,
                Fault,
            >(final(out)@.skip(old(out)@.len() as int)) && n == final(out)@.len() - old(out)@.len(),
            Err(e) => agrees(
                Err::<Seq<u8>, Fault>(e@),
                file_bytes(dev.bytes(), block_size, extents@, logical_size),
                dev.reliable(),
            ),
        },
{
    let map = build_extent_map(block_size, extents);
    let ghost spans = map@;
    let ghost whole = fork_prefix(dev.bytes(), spans, 0, logical_size as int);
    proof {
        lemma_spans_hold_bytes(extents@, block_size, 0, 0);
        if whole is Ok {
            assert(Seq::<u8>::empty() + whole->Ok_0 =~= whole->Ok_0);
        }
        assert(out@.skip(out@.len() as int) =~= Seq::<u8>::empty());
    }
    let mut written: u64 = 0;
    let mut i: usize = 0;
    while i < map.len() && written < logical_size
        invariant
            block_size > 0,
            i <= map.len(),
            spans == map@,
            spans == spans_of(extents@, block_size),
            spans_hold_bytes(spans),
            written <= logical_size,
            old(out)@.is_prefix_of(out@),
            out@.len() == old(out)@.len() + written,
            whole == fork_prefix(dev.bytes(), spans, 0, logical_size as int),
            whole == bytes_after(
                out@.skip(old(out)@.len() as int),
                fork_prefix(dev.bytes(), spans, i as int, logical_size - written),
            ),
        decreases map.len() - i,
    {
        let (_, phys, len) = map[i];
        assert(spans[i as int].2 > 0);
        let left: u64 = logical_size - written;
        let n: u64 = if len <= left {
            len
        } else {
            left
        };
        let ghost before = out@;
        stream_span(dev, phys, n, block_size, out)?;
        proof {
            let piece = dev.bytes().subrange(phys as int, phys + n);
            let seen = before.skip(old(out)@.len() as int);
            assert(out@.skip(old(out)@.len() as int) =~= seen + piece);
            let rest = fork_prefix(dev.bytes(), spans, i + 1, logical_size - written - n);
            if rest is Ok {
                assert(seen + (piece + rest->Ok_0) =~= (seen + piece) + rest->Ok_0);
            }
        }
        written += n;
        i += 1;
    }
    assert(out@.skip(old(out)@.len() as int) + Seq::<u8>::empty() =~= out@.skip(
        old(out)@.len() as int,
    ));
    Ok(written)
}

/// The `want` bytes at logical position `pos`.
pub open spec fn fork_read(disk: Seq<u8>, spans: Seq<(u64, u64, u64)>, pos: int, want: int) -> Result<
    Seq<u8>,
    Fault,
>
    decreases want,
{
    if want <= 0 {
        Ok(seq![])
    } else {
        match place_of(spans, pos) {
            None => Err(Fault::Io(IoError::UnexpectedEof)),
            Some((phys, run)) => {
                let n = if run <= want {
                    run as int
                } else {
                    want
                };
                if n <= 0 || !in_range(disk.len(), phys as int, n) {
                    Err(Fault::Io(IoError::UnexpectedEof))
                } else {
                    bytes_after(
                        disk.subrange(phys as int, phys + n),
                        fork_read(disk, spans, pos + n, want - n),
                    )
                }
            },
        }
    }
}

/// Where a seek goes.
#[derive(Debug, Clone, Copy)]
pub enum SeekTo {
    Start(u64),
    Current(i64),
    End(i64),
}

/// A 64-bit number read as a signed one.
pub open spec fn signed(x: u64) -> int {
    if x <= i64::MAX {
        x as int
    } else {
        x - 0x1_0000_0000_0000_0000
    }
}

/// The position that a seek asks for.
pub open spec fn seek_target(to: SeekTo, position: u64, size: u64) -> int {
    match to {
        SeekTo::Start(o) => signed(o),
        SeekTo::Current(o) => signed(position) + o,
        SeekTo::End(o) => signed(size) + o,
    }
}

fn as_signed(x: u64) -> (r: i128)
    ensures
        r == signed(x),
{
    if x <= 0x7FFF_FFFF_FFFF_FFFF {
        x as i128
    } else {
        x as i128 - 0x1_0000_0000_0000_0000
    }
}

/// A reader that exposes a file's extents as a contiguous fork, with a
/// position of its own.
pub struct ApfsForkReader<'a, D: ReadAt> {
    pub dev: &'a D,
    pub logical_size: u64,
    pub extent_map: Vec<(u64, u64, u64)>,
    pub position: u64,
}

impl<'a, D: ReadAt> ApfsForkReader<'a, D> {
    pub fn new(dev: &'a D, block_size: u32, extents: Vec<FileExtentVal>, logical_size: u64) -> (f:
        Self)
        ensures
            f.dev == dev,
            f.logical_size == logical_size,
            f.extent_map@ == spans_of(extents@, block_size),
            f.position == 0,
    {
        ApfsForkReader {
            dev,
            logical_size,
            extent_map: build_extent_map(block_size, extents.as_slice()),
            position: 0,
        }
    }

    /// How many bytes a read of `len` bytes asks for.
    pub open spec fn wanted(&self, len: nat) -> int {
        if self.position >= self.logical_size {
            0
        } else if len <= self.logical_size - self.position {
            len as int
        } else {
            self.logical_size - self.position
        }
    }

    /// Read into the front of `dst` from the position on, up to the end of the
    /// file. Returns how many bytes were read, and moves past them. A read
    /// that fails leaves the position where it was.
    pub fn read(&mut self, dst: &mut [u8]) -> (r: Result<usize, IoError>)
        ensures
            final(self).dev == old(self).dev,
            final(self).logical_size == old(self).logical_size,
            final(self).extent_map == old(self).extent_map,
            final(dst)@.len() == old(dst)@.len(),
            ({
                let want = old(self).wanted(old(dst)@.len());
                let data = fork_read(
                    old(self).dev.bytes(),
                    old(self).extent_map@,
                    old(self).position as int,
                    want,
                );
                &&& final(dst)@.skip(want) == old(dst)@.skip(want)
                &&& match r {
                    Ok(n) => n == want && final(self).position == old(self).position + want && data
                        == Ok::<Seq<u8>, Fault>(final(dst)@.take(want)),
                    Err(e) => final(self).position == old(self).position && (
                    old(self).dev.reliable() ==> data == Err::<Seq<u8>, Fault>(Fault::Io(e))),
                }
            }),
    {
        let total: usize = dst.len();
        let want: usize = if self.position >= self.logical_size {
            0
        } else if (total as u64) <= self.logical_size - self.position {
            total
        } else {
            (self.logical_size - self.position) as usize
        };
        let ghost data = fork_read(
            self.dev.bytes(),
            self.extent_map@,
            self.position as int,
            want as int,
        );
        let mut copied: usize = 0;
        proof {
            if data is Ok {
                assert(dst@.take(0) + data->Ok_0 =~= data->Ok_0);
            }
        }
        while copied < want
            invariant
                self.dev == old(self).dev,
                self.logical_size == old(self).logical_size,
                self.extent_map == old(self).extent_map,
                self.position == old(self).position,
                copied <= want,
                want <= dst@.len(),
                dst@.len() == old(dst)@.len(),
                want == old(self).wanted(old(dst)@.len()),
                want > 0 ==> self.position + want <= self.logical_size,
                dst@.skip(want as int) == old(dst)@.skip(want as int),
                data == fork_read(
                    self.dev.bytes(),
                    self.extent_map@,
                    self.position as int,
                    want as int,
                ),
                data == bytes_after(
                    dst@.take(copied as int),
                    fork_read(
                        self.dev.bytes(),
                        self.extent_map@,
                        self.position + copied,
                        want - copied,
                    ),
                ),
            decreases want - copied,
        {
            let here: u64 = self.position + copied as u64;
            let (phys, run) = match translate(self.extent_map.as_slice(), here) {
                Some(p) => p,
                None => {
                    return Err(IoError::UnexpectedEof);
                },
            };
            let left: usize = want - copied;
            let chunk: usize = if run <= left as u64 {
                run as usize
            } else {
                left
            };
            let v = match self.dev.read_at(phys, chunk) {
                Ok(v) => v,
                Err(e) => {
                    return Err(e);
                },
            };
            let ghost before = dst@;
            put_bytes(dst, copied, v.as_slice());
            proof {
                assert(dst@.skip(want as int) =~= before.skip(want as int));
                assert(dst@.take(copied + chunk) =~= before.take(copied as int) + v@);
                let rest = fork_read(
                    self.dev.bytes(),
                    self.extent_map@,
                    self.position + copied + chunk,
                    want - copied - chunk,
                );
                if rest is Ok {
                    assert(before.take(copied as int) + (v@ + rest->Ok_0) =~= dst@.take(
                        copied + chunk,
                    ) + rest->Ok_0);
                }
            }
            copied += chunk;
        }
        assert(dst@.take(want as int) + Seq::<u8>::empty() =~= dst@.take(want as int));
        self.position = self.position + copied as u64;
        Ok(copied)
    }

    /// Move to another position. Positions before the start are refused.
    pub fn seek(&mut self, to: SeekTo) -> (r: Result<u64, IoError>)
        ensures
            final(self).dev == old(self).dev,
            final(self).logical_size == old(self).logical_size,
            final(self).extent_map == old(self).extent_map,
            ({
                let target = seek_target(to, old(self).position, old(self).logical_size);
                if 0 <= target <= i64::MAX {
                    r == Ok::<u64, IoError>(target as u64) && final(self).position == target
                } else {
                    r == Err::<u64, IoError>(IoError::InvalidInput) && final(self).position
                        == old(self).position
                }
            }),
    {
        let target: i128 = match to {
            SeekTo::Start(o) => as_signed(o),
            SeekTo::Current(o) => as_signed(self.position) + o as i128,
            SeekTo::End(o) => as_signed(self.logical_size) + o as i128,
        };
        if target < 0 || target > 0x7FFF_FFFF_FFFF_FFFF {
            return Err(IoError::InvalidInput);
        }
        self.position = target as u64;
        Ok(self.position)
    }
}

/// The outcome of writing `data` at byte `phys`, block by block, and the
/// device afterwards. A block that does not lie on the device as a whole ends
/// the write.
pub open spec fn raw_write(disk: Seq<u8>, block_size: u32, phys: int, data: Seq<u8>) -> (
    Result<(), Fault>,
    Seq<u8>,
)
    decreases data.len(),
{
    if data.len() == 0 {
        (Ok(()), disk)
    } else {
        let block = phys / (block_size as int) * block_size;
        let room = block + block_size - phys;
        let n = if room <= data.len() {
            room
        } else {
            data.len() as int
        };
        if !in_range(disk.len(), block, block_size as int) || n <= 0 {
            (Err(Fault::Io(IoError::UnexpectedEof)), disk)
        } else {
            raw_write(splice(disk, phys, data.take(n)), block_size, phys + n, data.skip(n))
        }
    }
}

/// The bytes before the end of the block that `x` lies in.
proof fn lemma_block_room(x: int, bs: int)
    requires
        bs > 0,
        x >= 0,
    ensures
        x / bs * bs <= x < x / bs * bs + bs,
        x / bs * bs == x - x % bs,
        0 <= x / bs * bs,
        0 <= x % bs < bs,
{
    vstd::arithmetic::div_mod::lemma_fundamental_div_mod(x, bs);
    vstd::arithmetic::div_mod::lemma_mod_bound(x, bs);
    vstd::arithmetic::div_mod::lemma_div_pos_is_pos(x, bs);
    assert(bs * (x / bs) == x / bs * bs) by (nonlinear_arith);
    assert(x / bs * bs >= 0) by (nonlinear_arith)
        requires
            x / bs >= 0,
            bs > 0,
    ;
}

/// Write `data` to physical byte offset `phys_offset`. Whole blocks are read,
/// changed and written back, so callers can write any range.
pub fn write_raw_at<W: WriteAt>(dev: &mut W, block_size: u32, phys_offset: u64, data: &[u8]) -> (r:
    Result<(), ApfsError>)
    requires
        block_size > 0,
    ensures
        final(dev).reliable() == old(dev).reliable(),
        final(dev).bytes().len() == old(dev).bytes().len(),
        old(dev).reliable() || r is Ok ==> (plain(r), final(dev).bytes()) == raw_write(
            old(dev).bytes(),
            block_size,
            phys_offset as int,
            data@,
        ),
{
    let size: u64 = dev.size();
    let ghost goal = raw_write(dev.bytes(), block_size, phys_offset as int, data@);
    let mut written: usize = 0;
    assert(data@.skip(0) =~= data@);
    while written < data.len()
        invariant
            block_size > 0,
            written <= data.len(),
            dev.reliable() == old(dev).reliable(),
            dev.bytes().len() == old(dev).bytes().len(),
            size == dev.bytes().len(),
            written > 0 ==> phys_offset + written <= size,
            goal == raw_write(old(dev).bytes(), block_size, phys_offset as int, data@),
            goal == raw_write(
                dev.bytes(),
                block_size,
                phys_offset + written,
                data@.skip(written as int),
            ),
        decreases data.len() - written,
    {
        let cur: u64 = phys_offset + written as u64;
        let intra: u64 = cur % (block_size as u64);
        proof {
            lemma_block_room(cur as int, block_size as int);
        }
        let start: u64 = cur - intra;
        let room: u64 = block_size as u64 - intra;
        let left: usize = data.len() - written;
        let chunk: usize = if room <= left as u64 {
            room as usize
        } else {
            left
        };
        let mut block = match dev.read_at(start, block_size as usize) {
            Ok(b) => b,
            Err(e) => {
                return Err(ApfsError::Io(e));
            },
        };
        let ghost before = dev.bytes();
        put_bytes(
            block.as_mut_slice(),
            intra as usize,
            slice_subrange(data, written, written + chunk),
        );
        match dev.write_at(start, block.as_slice()) {
            Ok(_) => {},
            Err(e) => {
                return Err(ApfsError::Io(e));
            },
        }
        proof {
            let rest = data@.skip(written as int);
            assert(rest.take(chunk as int) =~= data@.subrange(
                written as int,
                (written + chunk) as int,
            ));
            assert(rest.skip(chunk as int) =~= data@.skip((written + chunk) as int));
            assert(dev.bytes() =~= splice(before, cur as int, rest.take(chunk as int)));
        }
        written += chunk;
    }
    match dev.flush() {
        Ok(_) => Ok(()),
        Err(e) => Err(ApfsError::Io(e)),
    }
}

/// The outcome of writing `data` at logical position `pos`, and the device
/// afterwards. The count is of the bytes before the first position that no
/// span covers.
pub open spec fn fork_write(
    disk: Seq<u8>,
    block_size: u32,
    spans: Seq<(u64, u64, u64)>,
    pos: int,
    data: Seq<u8>,
) -> (Result<int, Fault>, Seq<u8>)
    decreases data.len(),
{
    if data.len() == 0 {
        (Ok(0), disk)
    } else {
        match place_of(spans, pos) {
            None => (Ok(0), disk),
            Some((phys, run)) => {
                let n = if run <= data.len() {
                    run as int
                } else {
                    data.len() as int
                };
                if n <= 0 {
                    (Ok(0), disk)
                } else {
                    match raw_write(disk, block_size, phys as int, data.take(n)) {
                        (Err(e), d) => (Err(e), d),
                        (Ok(_), d) => match fork_write(
                            d,
                            block_size,
                            spans,
                            pos + n,
                            data.skip(n),
                        ) {
                            (Err(e), d2) => (Err(e), d2),
                            (Ok(c), d2) => (Ok(n + c), d2),
                        },
                    }
                }
            },
        }
    }
}

/// An outcome with a count, the count taken as a mathematical integer.
pub open spec fn count_view(r: Result<u64, ApfsError>) -> Result<int, Fault> {
    match r {
        Ok(n) => Ok(n as int),
        Err(e) => Err(e@),
    }
}

/// A count in front of what the rest gives.
pub open spec fn count_after(seen: int, rest: (Result<int, Fault>, Seq<u8>)) -> (
    Result<int, Fault>,
    Seq<u8>,
) {
    match rest {
        (Err(e), d) => (Err(e), d),
        (Ok(c), d) => (Ok(seen + c), d),
    }
}

/// Write `buf` at logical position `offset` through an extent map. Returns the
/// number of bytes written, which is smaller than the length of `buf` only
/// where a sparse hole (no extent covers a logical offset) ended the write.
pub fn write_through_extent_map<W: WriteAt>(
    dev: &mut W,
    block_size: u32,
    map: &[(u64, u64, u64)],
    offset: u64,
    buf: &[u8],
) -> (r: Result<u64, ApfsError>)
    requires
        block_size > 0,
    ensures
        final(dev).reliable() == old(dev).reliable(),
        final(dev).bytes().len() == old(dev).bytes().len(),
        old(dev).reliable() || r is Ok ==> (count_view(r), final(dev).bytes()) == fork_write(
            old(dev).bytes(),
            block_size,
            map@,
            offset as int,
            buf@,
        ),
{
    let ghost goal = fork_write(dev.bytes(), block_size, map@, offset as int, buf@);
    let mut written: usize = 0;
    assert(buf@.skip(0) =~= buf@);
    while written < buf.len()
        invariant
            block_size > 0,
            written <= buf.len(),
            dev.reliable() == old(dev).reliable(),
            dev.bytes().len() == old(dev).bytes().len(),
            goal == fork_write(old(dev).bytes(), block_size, map@, offset as int, buf@),
            goal == count_after(
                written as int,
                fork_write(
                    dev.bytes(),
                    block_size,
                    map@,
                    offset + written,
                    buf@.skip(written as int),
                ),
            ),
        decreases buf.len() - written,
    {
        let (phys, run) = match offset.checked_add(written as u64) {
            None => {
                return Ok(written as u64);
            },
            Some(logical) => match translate(map, logical) {
                Some(p) => p,
                None => {
                    // A sparse hole: stop here and return what was written.
                    return Ok(written as u64);
                },
            },
        };
        let left: usize = buf.len() - written;
        let chunk: usize = if run <= left as u64 {
            run as usize
        } else {
            left
        };
        proof {
            let rest = buf@.skip(written as int);
            assert(rest.take(chunk as int) =~= buf@.subrange(
                written as int,
                (written + chunk) as int,
            ));
            assert(rest.skip(chunk as int) =~= buf@.skip((written + chunk) as int));
        }
        write_raw_at(dev, block_size, phys, slice_subrange(buf, written, written + chunk))?;
        written += chunk;
    }
    Ok(written as u64)
}

/// How many bytes the extents from `i` on hold.
pub open spec fn total_length(exts: Seq<FileExtentVal>, i: int) -> int
    decreases exts.len() - i,
{
    if i >= exts.len() || i < 0 {
        0
    } else {
        extent_length(exts[i]) + total_length(exts, i + 1)
    }
}

/// Spans that follow each other without a gap from logical position `log` on.
pub open spec fn chained(spans: Seq<(u64, u64, u64)>, log: int) -> bool {
    &&& spans.len() > 0 ==> spans[0].0 == log
    &&& forall|i: int, j: int|
        0 <= i && j == i + 1 && j < spans.len() ==> (#[trigger] spans[i]).0 + spans[i].2 == (
        #[trigger] spans[j]).0
}

/// The logical end of spans that start at `log`.
pub open spec fn fork_end(spans: Seq<(u64, u64, u64)>, log: int) -> int {
    if spans.len() == 0 {
        log
    } else {
        spans.last().0 + spans.last().2
    }
}

proof fn lemma_spans_chained(exts: Seq<FileExtentVal>, block_size: u32, i: int, log: u64)
    requires
        log + total_length(exts, i) <= u64::MAX,
    ensures
        chained(spans_from(exts, block_size, i, log), log as int),
        fork_end(spans_from(exts, block_size, i, log), log as int) == log + total_length(exts, i),
        total_length(exts, i) >= 0,
    decreases exts.len() - i,
{
    if 0 <= i < exts.len() {
        let len = extent_length(exts[i]);
        lemma_total_length(exts, i + 1);
        if len == 0 {
            lemma_spans_chained(exts, block_size, i + 1, log);
        } else {
            lemma_spans_chained(exts, block_size, i + 1, (log + len) as u64);
            let rest = spans_from(exts, block_size, i + 1, (log + len) as u64);
            let head = (log, sat(exts[i].phys_block_num * block_size), len);
            let all = seq![head] + rest;
            assert(forall|k: int| 1 <= k < all.len() ==> all[k] == rest[k - 1]);
            assert forall|a: int, b: int| 0 <= a && b == a + 1 && b < all.len() implies (
            #[trigger] all[a]).0 + all[a].2 == (#[trigger] all[b]).0 by {
                if a > 0 {
                    assert(rest[a - 1].0 + rest[a - 1].2 == rest[b - 1].0);
                }
            }
            if rest.len() > 0 {
                assert(all.last() == rest.last());
            }
        }
    }
}

pub proof fn lemma_total_length(exts: Seq<FileExtentVal>, i: int)
    ensures
        total_length(exts, i) >= 0,
    decreases exts.len() - i,
{
    if 0 <= i < exts.len() {
        lemma_total_length(exts, i + 1);
    }
}

/// The spans of a file start at 0, follow each other without a gap, and end
/// where the lengths of its extents add up to.
pub proof fn law_spans_are_contiguous(exts: Seq<FileExtentVal>, block_size: u32)
    requires
        total_length(exts, 0) <= u64::MAX,
    ensures
        chained(spans_of(exts, block_size), 0),
        spans_hold_bytes(spans_of(exts, block_size)),
        fork_end(spans_of(exts, block_size), 0) == total_length(exts, 0),
{
    lemma_spans_chained(exts, block_size, 0, 0);
    lemma_spans_hold_bytes(exts, block_size, 0, 0);
}

/// Spans that make up one fork on a device of `len` bytes.
pub open spec fn sound_fork(spans: Seq<(u64, u64, u64)>, len: nat) -> bool {
    &&& chained(spans, 0)
    &&& spans_hold_bytes(spans)
    &&& fork_end(spans, 0) <= u64::MAX
    &&& forall|i: int|
        0 <= i < spans.len() ==> (#[trigger] spans[i]).1 + spans[i].2 <= len && len <= u64::MAX
}

/// Spans that share no byte of the device.
pub open spec fn spans_apart(spans: Seq<(u64, u64, u64)>) -> bool {
    forall|i: int, j: int|
        0 <= i < spans.len() && 0 <= j < spans.len() && i != j ==> (#[trigger] spans[i]).1
            + spans[i].2 <= (#[trigger] spans[j]).1 || spans[j].1 + spans[j].2 <= spans[i].1
}

/// The physical position of the byte at `p`.
pub open spec fn addr(spans: Seq<(u64, u64, u64)>, p: int) -> int {
    match place_of(spans, p) {
        Some((a, _)) => a as int,
        None => 0,
    }
}

/// The whole fork.
pub open spec fn fork(disk: Seq<u8>, spans: Seq<(u64, u64, u64)>) -> Seq<u8> {
    Seq::new(fork_end(spans, 0) as nat, |p: int| disk[addr(spans, p)])
}

/// A later span starts where an earlier one ends, or after it.
proof fn lemma_chain_order(spans: Seq<(u64, u64, u64)>, i: int, j: int)
    requires
        chained(spans, 0),
        spans_hold_bytes(spans),
        0 <= i < j < spans.len(),
    ensures
        spans[i].0 + spans[i].2 <= spans[j].0,
    decreases j - i,
{
    assert(spans[i].0 + spans[i].2 == spans[i + 1].0);
    if i + 1 < j {
        assert(spans[i + 1].2 > 0);
        lemma_chain_order(spans, i + 1, j);
    }
}

/// The place of a byte inside span `i`.
pub proof fn lemma_place_in(spans: Seq<(u64, u64, u64)>, len: nat, p: int, i: int, j: int)
    requires
        sound_fork(spans, len),
        0 <= j <= i < spans.len(),
        spans[i].0 <= p < spans[i].0 + spans[i].2,
    ensures
        place_from(spans, p, j) == Some(
            ((spans[i].1 + (p - spans[i].0)) as u64, (spans[i].2 - (p - spans[i].0)) as u64),
        ),
    decreases i - j,
{
    if j < i {
        lemma_chain_order(spans, j, i);
        lemma_place_in(spans, len, p, i, j + 1);
    } else {
        assert(spans[i].1 + spans[i].2 <= len);
    }
}

/// The span that holds a byte.
pub proof fn lemma_span_of(spans: Seq<(u64, u64, u64)>, len: nat, p: int) -> (i: int)
    requires
        sound_fork(spans, len),
        0 <= p < fork_end(spans, 0),
    ensures
        0 <= i < spans.len(),
        spans[i].0 <= p < spans[i].0 + spans[i].2,
        place_of(spans, p) == Some(
            ((spans[i].1 + (p - spans[i].0)) as u64, (spans[i].2 - (p - spans[i].0)) as u64),
        ),
        addr(spans, p) == spans[i].1 + (p - spans[i].0),
        addr(spans, p) < len,
        spans[i].0 + spans[i].2 <= fork_end(spans, 0),
{
    let i = lemma_span_search(spans, len, p, 0);
    lemma_place_in(spans, len, p, i, 0);
    assert(spans[i].1 + spans[i].2 <= len);
    if i < spans.len() - 1 {
        lemma_chain_order(spans, i, spans.len() - 1);
    }
    i
}

proof fn lemma_span_search(spans: Seq<(u64, u64, u64)>, len: nat, p: int, from: int) -> (i: int)
    requires
        sound_fork(spans, len),
        0 <= from < spans.len(),
        spans[from].0 <= p < fork_end(spans, 0),
    ensures
        0 <= i < spans.len(),
        spans[i].0 <= p < spans[i].0 + spans[i].2,
    decreases spans.len() - from,
{
    if p < spans[from].0 + spans[from].2 {
        from
    } else {
        assert(from < spans.len() - 1);
        assert(spans[from].0 + spans[from].2 == spans[from + 1].0);
        lemma_span_search(spans, len, p, from + 1)
    }
}

/// The bytes that follow in the same span have the addresses that follow.
proof fn lemma_run(spans: Seq<(u64, u64, u64)>, len: nat, p: int, k: int)
    requires
        sound_fork(spans, len),
        0 <= p < fork_end(spans, 0),
        place_of(spans, p) matches Some((_, run)) && 0 <= k < run,
    ensures
        p + k < fork_end(spans, 0),
        addr(spans, p + k) == addr(spans, p) + k,
        addr(spans, p) + place_of(spans, p)->Some_0.1 <= len,
{
    let i = lemma_span_of(spans, len, p);
    lemma_place_in(spans, len, p + k, i, 0);
    assert(spans[i].1 + spans[i].2 <= len);
    lemma_span_of(spans, len, p);
}

/// Two bytes of a fork never share an address.
proof fn lemma_addr_injective(spans: Seq<(u64, u64, u64)>, len: nat, p: int, q: int)
    requires
        sound_fork(spans, len),
        spans_apart(spans),
        0 <= p < fork_end(spans, 0),
        0 <= q < fork_end(spans, 0),
        p != q,
    ensures
        addr(spans, p) != addr(spans, q),
{
    let i = lemma_span_of(spans, len, p);
    let j = lemma_span_of(spans, len, q);
    if i != j {
        assert(spans[i].1 + spans[i].2 <= spans[j].1 || spans[j].1 + spans[j].2 <= spans[i].1);
    }
}

/// Reading through the fork gives the bytes at their logical positions.
pub proof fn law_fork_read_is_a_slice(
    disk: Seq<u8>,
    spans: Seq<(u64, u64, u64)>,
    pos: int,
    want: int,
)
    requires
        sound_fork(spans, disk.len()),
        0 <= pos,
        0 <= want,
        pos + want <= fork_end(spans, 0),
    ensures
        fork_read(disk, spans, pos, want) == Ok::<Seq<u8>, Fault>(
            fork(disk, spans).subrange(pos, pos + want),
        ),
    decreases want,
{
    let f = fork(disk, spans);
    if want == 0 {
        assert(f.subrange(pos, pos) =~= Seq::<u8>::empty());
    } else {
        let i = lemma_span_of(spans, disk.len(), pos);
        let (a, run) = place_of(spans, pos)->Some_0;
        let n = if run <= want {
            run as int
        } else {
            want
        };
        lemma_run(spans, disk.len(), pos, 0);
        law_fork_read_is_a_slice(disk, spans, pos + n, want - n);
        let piece = disk.subrange(a as int, a + n);
        assert forall|k: int| 0 <= k < n implies #[trigger] piece[k] == f[pos + k] by {
            lemma_run(spans, disk.len(), pos, k);
        }
        assert(piece + f.subrange(pos + n, pos + want) =~= f.subrange(pos, pos + want));
    }
}

proof fn lemma_prefix_from(disk: Seq<u8>, spans: Seq<(u64, u64, u64)>, i: int, limit: int)
    requires
        sound_fork(spans, disk.len()),
        0 <= i <= spans.len(),
        limit >= 0,
    ensures
        ({
            let start = if i < spans.len() {
                spans[i].0 as int
            } else {
                fork_end(spans, 0)
            };
            let end = if start + limit <= fork_end(spans, 0) {
                start + limit
            } else {
                fork_end(spans, 0)
            };
            &&& start <= fork_end(spans, 0)
            &&& fork_prefix(disk, spans, i, limit) == Ok::<Seq<u8>, Fault>(
                fork(disk, spans).subrange(start, end),
            )
        }),
    decreases spans.len() - i,
{
    let f = fork(disk, spans);
    let end_all = fork_end(spans, 0);
    if i < spans.len() {
        let (log, phys, len) = spans[i];
        assert(spans[i].1 + spans[i].2 <= disk.len());
        assert(spans[i].2 > 0);
        let n = if len <= limit {
            len as int
        } else {
            limit
        };
        lemma_prefix_from(disk, spans, i + 1, limit - n);
        if i + 1 < spans.len() {
            assert(spans[i].0 + spans[i].2 == spans[i + 1].0);
        }
        if limit > 0 {
            let piece = disk.subrange(phys as int, phys + n);
            assert forall|k: int| 0 <= k < n implies #[trigger] piece[k] == f[log + k] by {
                lemma_place_in(spans, disk.len(), log + k, i, 0);
            }
            let rest = fork_prefix(disk, spans, i + 1, limit - n)->Ok_0;
            let end = if log + limit <= end_all {
                log + limit
            } else {
                end_all
            };
            if n < len {
                assert(limit - n == 0);
                assert(rest =~= Seq::<u8>::empty());
            }
            assert(piece + rest =~= f.subrange(log as int, end));
        } else {
            assert(f.subrange(log as int, log as int) =~= Seq::<u8>::empty());
        }
    } else {
        assert(f.subrange(end_all, end_all) =~= Seq::<u8>::empty());
    }
}

/// Streaming a file gives the front of its fork.
pub proof fn law_streaming_gives_the_front(disk: Seq<u8>, spans: Seq<(u64, u64, u64)>, limit: int)
    requires
        sound_fork(spans, disk.len()),
        limit >= 0,
    ensures
        fork_prefix(disk, spans, 0, limit) == Ok::<Seq<u8>, Fault>(
            fork(disk, spans).take(
                if limit <= fork_end(spans, 0) {
                    limit
                } else {
                    fork_end(spans, 0)
                },
            ),
        ),
{
    lemma_prefix_from(disk, spans, 0, limit);
}

/// On a device of whole blocks a write inside the device puts the bytes there
/// and changes nothing else.
pub proof fn lemma_raw_write(disk: Seq<u8>, block_size: u32, phys: int, data: Seq<u8>)
    requires
        block_size > 0,
        disk.len() % (block_size as nat) == 0,
        0 <= phys,
        phys + data.len() <= disk.len(),
    ensures
        raw_write(disk, block_size, phys, data) == (
            Ok::<(), Fault>(()),
            splice(disk, phys, data),
        ),
    decreases data.len(),
{
    if data.len() == 0 {
        assert(splice(disk, phys, data) =~= disk);
    } else {
        let bs = block_size as int;
        lemma_block_room(phys, bs);
        let block = phys / bs * bs;
        let room = block + bs - phys;
        let n = if room <= data.len() {
            room
        } else {
            data.len() as int
        };
        let len = disk.len() as int;
        assert(block + bs <= len) by (nonlinear_arith)
            requires
                block == phys / bs * bs,
                phys < len,
                len % bs == 0,
                bs > 0,
        {
            vstd::arithmetic::div_mod::lemma_fundamental_div_mod(len, bs);
            vstd::arithmetic::div_mod::lemma_fundamental_div_mod(phys, bs);
        }
        let next = splice(disk, phys, data.take(n));
        lemma_raw_write(next, block_size, phys + n, data.skip(n));
        assert(splice(next, phys + n, data.skip(n)) =~= splice(disk, phys, data));
    }
}

/// What is on the device after a write through the fork.
pub proof fn lemma_fork_write(
    disk: Seq<u8>,
    block_size: u32,
    spans: Seq<(u64, u64, u64)>,
    pos: int,
    data: Seq<u8>,
)
    requires
        block_size > 0,
        disk.len() % (block_size as nat) == 0,
        sound_fork(spans, disk.len()),
        spans_apart(spans),
        0 <= pos,
        pos + data.len() <= fork_end(spans, 0),
    ensures
        ({
            let (r, d) = fork_write(disk, block_size, spans, pos, data);
            &&& r == Ok::<int, Fault>(data.len() as int)
            &&& d.len() == disk.len()
            &&& forall|k: int|
                0 <= k < data.len() ==> d[#[trigger] addr(spans, pos + k)] == data[k]
            &&& forall|x: int|
                0 <= x < disk.len() && (forall|k: int|
                    0 <= k < data.len() ==> x != #[trigger] addr(spans, pos + k)) ==> (#[trigger] d[x])
                    == disk[x]
        }),
    decreases data.len(),
{
    if data.len() > 0 {
        let i = lemma_span_of(spans, disk.len(), pos);
        let (a, run) = place_of(spans, pos)->Some_0;
        let n = if run <= data.len() {
            run as int
        } else {
            data.len() as int
        };
        lemma_run(spans, disk.len(), pos, 0);
        let head = data.take(n);
        let tail = data.skip(n);
        lemma_raw_write(disk, block_size, a as int, head);
        let mid = splice(disk, a as int, head);
        lemma_fork_write(mid, block_size, spans, pos + n, tail);
        let (r, d) = fork_write(mid, block_size, spans, pos + n, tail);
        assert(fork_write(disk, block_size, spans, pos, data) == (Ok::<int, Fault>(data.len() as int), d));
        assert forall|k: int| 0 <= k < data.len() implies d[#[trigger] addr(spans, pos + k)]
            == data[k] by {
            if k >= n {
                assert(addr(spans, pos + n + (k - n)) == addr(spans, pos + k));
                assert(tail[k - n] == data[k]);
            } else {
                lemma_run(spans, disk.len(), pos, k);
                let x = addr(spans, pos + k);
                assert(mid[x] == head[k]);
                assert forall|q: int| 0 <= q < tail.len() implies x != #[trigger] addr(
                    spans,
                    pos + n + q,
                ) by {
                    lemma_addr_injective(spans, disk.len(), pos + k, pos + n + q);
                }
                assert(d[x] == mid[x]);
            }
        }
        assert forall|x: int|
            0 <= x < disk.len() && (forall|k: int|
                0 <= k < data.len() ==> x != #[trigger] addr(spans, pos + k)) implies (#[trigger] d[x])
            == disk[x] by {
            assert forall|q: int| 0 <= q < tail.len() implies x != #[trigger] addr(
                spans,
                pos + n + q,
            ) by {
                assert(x != addr(spans, pos + (n + q)));
            }
            assert(d[x] == mid[x]);
            if a <= x < a + n {
                lemma_run(spans, disk.len(), pos, x - a);
                assert(x == addr(spans, pos + (x - a)));
            }
            assert(mid[x] == disk[x]);
        }
    }
}

/// After a write through the fork the fork holds the new bytes at their place
/// and the old ones elsewhere, and so does the front of it that is read back.
pub proof fn law_write_then_read(
    disk: Seq<u8>,
    block_size: u32,
    spans: Seq<(u64, u64, u64)>,
    pos: int,
    data: Seq<u8>,
    limit: int,
)
    requires
        block_size > 0,
        disk.len() % (block_size as nat) == 0,
        sound_fork(spans, disk.len()),
        spans_apart(spans),
        0 <= pos,
        pos + data.len() <= limit <= fork_end(spans, 0),
    ensures
        ({
            let (r, d) = fork_write(disk, block_size, spans, pos, data);
            &&& r == Ok::<int, Fault>(data.len() as int)
            &&& fork(d, spans) == splice(fork(disk, spans), pos, data)
            &&& fork_prefix(disk, spans, 0, limit) matches Ok(was) && fork_prefix(
                d,
                spans,
                0,
                limit,
            ) == Ok::<Seq<u8>, Fault>(splice(was, pos, data))
        }),
{
    let (r, d) = fork_write(disk, block_size, spans, pos, data);
    lemma_fork_write(disk, block_size, spans, pos, data);
    let now = fork(d, spans);
    let then = splice(fork(disk, spans), pos, data);
    assert forall|p: int| 0 <= p < fork_end(spans, 0) implies #[trigger] now[p] == then[p] by {
        let i = lemma_span_of(spans, disk.len(), p);
        let x = addr(spans, p);
        if pos <= p < pos + data.len() {
            assert(d[addr(spans, pos + (p - pos))] == data[p - pos]);
        } else {
            assert forall|k: int| 0 <= k < data.len() implies x != #[trigger] addr(
                spans,
                pos + k,
            ) by {
                lemma_addr_injective(spans, disk.len(), p, pos + k);
            }
            assert(d[x] == disk[x]);
        }
    }
    assert(now =~= then);
    law_streaming_gives_the_front(disk, spans, limit);
    law_streaming_gives_the_front(d, spans, limit);
    assert(now.take(limit) =~= splice(fork(disk, spans).take(limit), pos, data));
}

proof fn lemma_span_from(exts: Seq<FileExtentVal>, block_size: u32, j: int, i: int, log: u64) -> (k: int)
    requires
        0 <= j <= i < exts.len(),
        log + total_length(exts, j) <= u64::MAX,
        extent_length(exts[i]) > 0,
    ensures
        ({
            let spans = spans_from(exts, block_size, j, log);
            &&& 0 <= k < spans.len()
            &&& spans[k].0 == log + total_length(exts, j) - total_length(exts, i)
            &&& spans[k].1 == sat(exts[i].phys_block_num * block_size)
            &&& spans[k].2 == extent_length(exts[i])
        }),
    decreases i - j,
{
    lemma_total_length(exts, j + 1);
    if j == i {
        0
    } else {
        let len = extent_length(exts[j]);
        if len == 0 {
            lemma_span_from(exts, block_size, j + 1, i, log)
        } else {
            let k = lemma_span_from(exts, block_size, j + 1, i, (log + len) as u64);
            let rest = spans_from(exts, block_size, j + 1, (log + len) as u64);
            assert(spans_from(exts, block_size, j, log)[k + 1] == rest[k]);
            k + 1
        }
    }
}

/// An extent that holds bytes is a span of the file: it starts behind the bytes
/// of the extents before it, lies on the device from its first block on, and
/// has the length in the low 56 bits of its first word. Gives its place among
/// the spans.
pub proof fn law_span_of_extent(exts: Seq<FileExtentVal>, block_size: u32, i: int) -> (k: int)
    requires
        0 <= i < exts.len(),
        total_length(exts, 0) <= u64::MAX,
        exts[i].flags_and_length % 0x100_0000_0000_0000 > 0,
        exts[i].phys_block_num * block_size <= u64::MAX,
    ensures
        ({
            let spans = spans_of(exts, block_size);
            &&& 0 <= k < spans.len()
            &&& spans[k].0 == total_length(exts, 0) - total_length(exts, i)
            &&& spans[k].1 == exts[i].phys_block_num * block_size
            &&& spans[k].2 == exts[i].flags_and_length % 0x100_0000_0000_0000
        }),
{
    assert(exts[i].phys_block_num * block_size >= 0) by (nonlinear_arith);
    lemma_span_from(exts, block_size, 0, i, 0)
}

/// A read asks for what the buffer takes, or for what is left of the file, and
/// behind the end for nothing.
pub proof fn law_read_stops_at_end<'a, D: ReadAt>(f: ApfsForkReader<'a, D>, len: nat)
    ensures
        f.position >= f.logical_size ==> f.wanted(len) == 0,
        f.position < f.logical_size ==> f.wanted(len) <= len && f.position + f.wanted(len)
            <= f.logical_size && (f.wanted(len) == len || f.position + f.wanted(len)
            == f.logical_size),
{
}

/// Positions are counted from the start, from where the reader is, or from the
/// end of the file.
pub proof fn law_seek(position: u64, size: u64, from_start: u64, by: i64)
    requires
        position <= i64::MAX,
        size <= i64::MAX,
        from_start <= i64::MAX,
    ensures
        seek_target(SeekTo::Start(from_start), position, size) == from_start,
        seek_target(SeekTo::Current(by), position, size) == position + by,
        seek_target(SeekTo::End(by), position, size) == size + by,
{
}

/// The bytes of a span are the bytes of the file from where the span starts in
/// it, and all that follow in the span follow on the device.
pub proof fn law_bytes_of_span(disk: Seq<u8>, spans: Seq<(u64, u64, u64)>, i: int, k: int)
    requires
        sound_fork(spans, disk.len()),
        0 <= i < spans.len(),
        0 <= k < spans[i].2,
    ensures
        fork(disk, spans)[spans[i].0 + k] == disk[spans[i].1 + k],
        place_of(spans, spans[i].0 + k) == Some(
            ((spans[i].1 + k) as u64, (spans[i].2 - k) as u64),
        ),
{
    if i < spans.len() - 1 {
        lemma_chain_order(spans, i, spans.len() - 1);
    }
    assert(spans[i].1 + spans[i].2 <= disk.len());
    lemma_place_in(spans, disk.len(), spans[i].0 + k, i, 0);
}

} // verus!
