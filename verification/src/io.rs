//! Decisions of the I/O entry points: which `ioctl` requests are served by
//! name and which pass through, how a directory read buffer splits into
//! records, and how `getdelim` grows its line buffer.

use vstd::prelude::*;

verus! {

/// Get the terminal attributes.
pub const TCGETS: i64 = 0x5401;
/// Set or clear non-blocking mode.
pub const FIONBIO: i64 = 0x5421;
/// The count of bytes waiting to be read.
pub const TIOCINQ: i64 = 0x541b;
/// Get the terminal window size.
pub const TIOCGWINSZ: i64 = 0x5413;
/// Share the extents of another file.
pub const FICLONE: i64 = 0x4004_9409;

/// How an `ioctl` request is served.
#[derive(Debug, Copy, Clone, PartialEq, Eq, Structural)]
pub enum IoctlOp {
    /// Read the terminal attributes into the argument.
    GetTermios,
    /// Set non-blocking mode from the `int` the argument points at.
    SetNonBlocking,
    /// Read the window size into the argument.
    GetWindowSize,
    /// Clone the file whose descriptor is the argument.
    CloneFile,
    /// Hand the request and argument to the kernel as they are.
    Passthrough,
}

/// How `ioctl` serves `request`.
pub open spec fn spec_ioctl_op(request: i64) -> IoctlOp {
    if request == TCGETS {
        IoctlOp::GetTermios
    } else if request == FIONBIO || request == TIOCINQ {
        IoctlOp::SetNonBlocking
    } else if request == TIOCGWINSZ {
        IoctlOp::GetWindowSize
    } else if request == FICLONE {
        IoctlOp::CloneFile
    } else {
        IoctlOp::Passthrough
    }
}

/// The way `ioctl` serves `request`. `TIOCINQ` is served as `FIONBIO`.
pub fn ioctl_op(request: i64) -> (r: IoctlOp)
    ensures
        r == spec_ioctl_op(request),
{
    if request == TCGETS {
        IoctlOp::GetTermios
    } else if request == FIONBIO || request == TIOCINQ {
        IoctlOp::SetNonBlocking
    } else if request == TIOCGWINSZ {
        IoctlOp::GetWindowSize
    } else if request == FICLONE {
        IoctlOp::CloneFile
    } else {
        IoctlOp::Passthrough
    }
}

/// The record length of the directory entry at `off`: the little-endian
/// `u16` at offset 16 of a `dirent64`.
pub open spec fn reclen_at(b: Seq<u8>, off: int) -> int {
    b[off + 16] as int + 256 * (b[off + 17] as int)
}

/// The directory entries from `off` on, as (offset, length) pairs. The walk
/// goes record by record; a record whose header or length does not fit in
/// the buffer, or whose length is zero, ends it.
pub open spec fn records_from(b: Seq<u8>, off: int) -> Seq<(usize, usize)>
    decreases b.len() - off,
{
    if off < 0 || off + 18 > b.len() {
        Seq::empty()
    } else {
        let n = reclen_at(b, off);
        if n == 0 || off + n > b.len() {
            Seq::empty()
        } else {
            seq![(off as usize, n as usize)] + records_from(b, off + n)
        }
    }
}

proof fn lemma_records_in_bounds(b: Seq<u8>, off: int)
    requires
        0 <= off,
        b.len() <= usize::MAX,
    ensures
        forall|k: int| 0 <= k < records_from(b, off).len() ==> off <= (#[trigger] records_from(b, off)[k]).0
            && records_from(b, off)[k].0 + 18 <= b.len()
            && 0 < records_from(b, off)[k].1
            && records_from(b, off)[k].0 + records_from(b, off)[k].1 <= b.len(),
    decreases b.len() - off,
{
    if !(off < 0 || off + 18 > b.len()) {
        let n = reclen_at(b, off);
        if !(n == 0 || off + n > b.len()) {
            lemma_records_in_bounds(b, off + n);
            let rs = records_from(b, off);
            assert forall|k: int| 0 <= k < rs.len() implies off <= (#[trigger] rs[k]).0
                && rs[k].0 + 18 <= b.len() && 0 < rs[k].1 && rs[k].0 + rs[k].1 <= b.len() by {
                if k > 0 {
                    assert(rs[k] == records_from(b, off + n)[k - 1]);
                }
            }
        }
    }
}

/// The directory entries in the bytes a `getdents64` call returned. Each
/// lies within the bytes, header included.
pub fn dirent_records(b: &[u8]) -> (r: Vec<(usize, usize)>)
    ensures
        r@ == records_from(b@, 0),
        forall|k: int| 0 <= k < r.len() ==> (#[trigger] r@[k]).0 + 18 <= b.len() && 0 < r@[k].1
            && r@[k].0 + r@[k].1 <= b.len(),
{
    proof {
        assert(b@.len() == b.len());
        lemma_records_in_bounds(b@, 0);
    }
    let mut out: Vec<(usize, usize)> = Vec::new();
    let mut off: usize = 0;
    while off <= b.len() && b.len() - off >= 18
        invariant
            off <= b.len(),
            records_from(b@, 0) == out@ + records_from(b@, off as int),
            forall|k: int| 0 <= k < records_from(b@, 0).len() ==> (#[trigger] records_from(b@, 0)[k]).0 + 18
                <= b.len() && 0 < records_from(b@, 0)[k].1 && records_from(b@, 0)[k].0 + records_from(
                b@,
                0,
            )[k].1 <= b.len(),
        decreases b.len() - off,
    {
        let n = b[off + 16] as usize + 256 * (b[off + 17] as usize);
        if n == 0 || n > b.len() - off {
            return out;
        }
        proof {
            assert(records_from(b@, off as int) == seq![(off, n)] + records_from(b@, off + n));
            assert(out@ + (seq![(off, n)] + records_from(b@, off + n)) =~= out@.push((off, n))
                + records_from(b@, off + n));
        }
        out.push((off, n));
        off = off + n;
    }
    out
}

/// The capacity `getdelim` starts a line buffer with when the caller gives
/// none.
pub const GETDELIM_INITIAL_CAP: usize = 128;

/// The capacity `getdelim` allocates before it reads, when the caller's
/// buffer is null or empty; `None` when it keeps the caller's.
pub open spec fn spec_start(buf_is_null: bool, cap: usize) -> Option<usize> {
    if buf_is_null || cap == 0 {
        Some(GETDELIM_INITIAL_CAP)
    } else {
        None
    }
}

/// `getdelim`'s line buffer before it reads: the capacity to allocate when
/// the caller's buffer is null or empty, else `None` (keep it).
pub fn getdelim_start(buf_is_null: bool, cap: usize) -> (r: Option<usize>)
    ensures
        r == spec_start(buf_is_null, cap),
{
    if buf_is_null || cap == 0 {
        Some(GETDELIM_INITIAL_CAP)
    } else {
        None
    }
}

/// The capacity to grow to before storing a byte at `len`: double `cap`
/// when the byte and a terminator would not fit, wrapping as the C
/// library's release build does; `None` when they fit.
pub open spec fn spec_grow(len: int, cap: usize) -> Option<usize> {
    if len + 2 > cap {
        Some(cap.wrapping_mul(2))
    } else {
        None
    }
}

/// Before storing a byte at `len`: the doubled capacity to grow to when the
/// byte and a terminator would not fit in `cap`, else `None`.
pub fn getdelim_grow(len: usize, cap: usize) -> (r: Option<usize>)
    ensures
        r == spec_grow(len as int, cap),
{
    if len >= cap || cap - len < 2 {
        Some(cap.wrapping_mul(2))
    } else {
        None
    }
}

/// What `getdelim` returns after storing `len` bytes: -1 when it stored
/// none, else the count.
pub open spec fn spec_result(len: int) -> int {
    if len == 0 {
        -1
    } else {
        len
    }
}

/// `getdelim`'s result after reading `len` bytes: -1 when nothing was read
/// before the end, else the count.
pub fn getdelim_result(len: usize) -> (r: isize)
    requires
        len <= isize::MAX,
    ensures
        r == spec_result(len as int),
{
    if len == 0 {
        -1
    } else {
        len as isize
    }
}

/// `getdelim` always has room: with bytes stored below a capacity of at
/// least one, after the growth step the next byte and its terminator fit
/// (while doubling the capacity does not overflow).
pub proof fn law_getdelim_room(len: usize, cap: usize)
    requires
        1 <= cap,
        len < cap,
        cap * 2 <= usize::MAX,
    ensures
        len + 2 <= match spec_grow(len as int, cap) {
            Some(c) => c as int,
            None => cap as int,
        },
{
    let range: nat = (usize::MAX - usize::MIN + 1) as nat;
    vstd::arithmetic::div_mod::lemma_small_mod((cap as nat * 2) as nat, range);
    assert(cap.wrapping_mul(2) == cap * 2);
}

/// What `getdelim` does with `c`, the result of reading one more byte, when
/// `len` bytes are stored in a buffer of `cap`.
#[derive(Debug, Copy, Clone)]
pub enum LineStep {
    /// The stream ended (or failed): the line ends before it.
    End,
    /// Grow the buffer to `grow` when that is `Some`, then store the byte
    /// at `len`; the line ends after it when `last` (it was the delimiter).
    Store { grow: Option<usize>, last: bool },
}

/// The step `getdelim` takes for the read result `c`: a negative one ends
/// the line; any other byte is stored, after the growth `spec_grow` asks
/// for, and ends the line when it equals `delim`.
pub open spec fn spec_line_step(len: int, cap: usize, c: i32, delim: i32) -> LineStep {
    if c < 0 {
        LineStep::End
    } else {
        LineStep::Store { grow: spec_grow(len, cap), last: c == delim }
    }
}

/// `getdelim`'s step for the read result `c` (a byte, or negative at the
/// stream's end), with `len` bytes stored in a buffer of `cap`.
pub fn getdelim_step(len: usize, cap: usize, c: i32, delim: i32) -> (r: LineStep)
    ensures
        r == spec_line_step(len as int, cap, c, delim),
{
    if c < 0 {
        LineStep::End
    } else {
        LineStep::Store { grow: getdelim_grow(len, cap), last: c == delim }
    }
}

/// `getdelim`'s reading loop over `input`, the bytes the stream holds
/// before its end, with `len` bytes stored in a buffer of `cap`: it takes
/// the steps `spec_line_step` gives for each byte in turn, and at the end
/// of `input` the step for the end. The stored count and the capacity
/// after it.
pub open spec fn read_line(input: Seq<u8>, delim: i32, len: int, cap: usize) -> (int, usize)
    decreases input.len(),
{
    if input.len() == 0 {
        (len, cap)
    } else {
        match spec_line_step(len, cap, input[0] as i32, delim) {
            LineStep::End => (len, cap),
            LineStep::Store { grow, last } => {
                let grown = match grow {
                    Some(c) => c,
                    None => cap,
                };
                if last {
                    (len + 1, grown)
                } else {
                    read_line(input.drop_first(), delim, len + 1, grown)
                }
            },
        }
    }
}

/// One `getdelim` call on a stream holding `input` before its end, with the
/// caller's buffer null or not and of capacity `cap`: what it returns, how
/// many bytes it takes from the stream, and the capacity it hands back.
pub open spec fn getdelim_call(input: Seq<u8>, delim: i32, buf_is_null: bool, cap: usize) -> (
    int,
    int,
    usize,
) {
    let start = match spec_start(buf_is_null, cap) {
        Some(c) => c,
        None => cap,
    };
    let (len, after) = read_line(input, delim, 0, start);
    (spec_result(len), len, after)
}

proof fn lemma_read_through_delim(line: Seq<u8>, rest: Seq<u8>, delim: i32, len: int, cap: usize)
    requires
        line.len() >= 1,
        line.last() as i32 == delim,
        forall|i: int| 0 <= i < line.len() - 1 ==> line[i] as i32 != delim,
    ensures
        read_line(line + rest, delim, len, cap).0 == len + line.len(),
    decreases line.len(),
{
    let input = line + rest;
    assert(input[0] == line[0]);
    if line.len() > 1 {
        let grown = match spec_grow(len, cap) {
            Some(c) => c,
            None => cap,
        };
        let tail = line.drop_first();
        assert(input.drop_first() =~= tail + rest);
        assert(tail.last() == line.last());
        assert forall|i: int| 0 <= i < tail.len() - 1 implies tail[i] as i32 != delim by {
            assert(tail[i] == line[i + 1]);
        }
        lemma_read_through_delim(tail, rest, delim, len + 1, grown);
    }
}

proof fn lemma_read_to_end(input: Seq<u8>, delim: i32, len: int, cap: usize)
    requires
        forall|i: int| 0 <= i < input.len() ==> input[i] as i32 != delim,
    ensures
        read_line(input, delim, len, cap).0 == len + input.len(),
    decreases input.len(),
{
    if input.len() > 0 {
        let grown = match spec_grow(len, cap) {
            Some(c) => c,
            None => cap,
        };
        let tail = input.drop_first();
        assert forall|i: int| 0 <= i < tail.len() implies tail[i] as i32 != delim by {
            assert(tail[i] == input[i + 1]);
        }
        lemma_read_to_end(tail, delim, len + 1, grown);
    }
}

/// Successive `getdelim` calls read a stream line by line: when the stream
/// holds `line` (ending in its only `delim`) and then `rest`, a call
/// returns the line's length and takes exactly the line, so the next call
/// starts at `rest`.
pub proof fn law_getdelim_takes_one_line(
    line: Seq<u8>,
    rest: Seq<u8>,
    delim: i32,
    buf_is_null: bool,
    cap: usize,
)
    requires
        line.len() >= 1,
        line.last() as i32 == delim,
        forall|i: int| 0 <= i < line.len() - 1 ==> line[i] as i32 != delim,
    ensures
        getdelim_call(line + rest, delim, buf_is_null, cap).0 == line.len(),
        getdelim_call(line + rest, delim, buf_is_null, cap).1 == line.len(),
{
    let start = match spec_start(buf_is_null, cap) {
        Some(c) => c,
        None => cap,
    };
    lemma_read_through_delim(line, rest, delim, 0, start);
}

/// A last line with no `delim` before the stream's end is read whole: the
/// call returns its length and takes all of it. A call on a stream at its
/// end returns -1, takes nothing, and leaves a caller's non-empty buffer at
/// the capacity it had.
pub proof fn law_getdelim_at_end(input: Seq<u8>, delim: i32, buf_is_null: bool, cap: usize)
    requires
        forall|i: int| 0 <= i < input.len() ==> input[i] as i32 != delim,
    ensures
        input.len() > 0 ==> getdelim_call(input, delim, buf_is_null, cap).0 == input.len(),
        getdelim_call(input, delim, buf_is_null, cap).1 == input.len(),
        input.len() == 0 ==> getdelim_call(input, delim, buf_is_null, cap).0 == -1,
        input.len() == 0 && !buf_is_null && cap > 0 ==> getdelim_call(
            input,
            delim,
            buf_is_null,
            cap,
        ).2 == cap,
{
    let start = match spec_start(buf_is_null, cap) {
        Some(c) => c,
        None => cap,
    };
    lemma_read_to_end(input, delim, 0, start);
}

/// The requests `ioctl` serves itself, by their Linux numbers: 0x5401
/// (`TCGETS`) reads the terminal attributes, 0x5421 (`FIONBIO`) and 0x541b
/// (`TIOCINQ`) set non-blocking mode, 0x5413 (`TIOCGWINSZ`) reads the
/// window size, 0x40049409 (`FICLONE`) clones a file; every other request
/// goes to the kernel unchanged.
pub proof fn law_ioctl_requests(request: i64)
    ensures
        spec_ioctl_op(0x5401) == IoctlOp::GetTermios,
        spec_ioctl_op(0x5421) == IoctlOp::SetNonBlocking,
        spec_ioctl_op(0x541b) == IoctlOp::SetNonBlocking,
        spec_ioctl_op(0x5413) == IoctlOp::GetWindowSize,
        spec_ioctl_op(0x4004_9409) == IoctlOp::CloneFile,
        request != 0x5401 && request != 0x5421 && request != 0x541b && request != 0x5413 && request
            != 0x4004_9409 ==> spec_ioctl_op(request) == IoctlOp::Passthrough,
{
}

proof fn lemma_records_chain(b: Seq<u8>, off: int)
    requires
        0 <= off,
        b.len() <= usize::MAX,
    ensures
        records_from(b, off).len() > 0 ==> records_from(b, off)[0].0 == off,
        forall|k: int|
            0 <= k < records_from(b, off).len() ==> (#[trigger] records_from(b, off)[k]).1 == b[records_from(
                b,
                off,
            )[k].0 + 16] + 256 * b[records_from(b, off)[k].0 + 17],
        forall|k: int|
            0 <= k < records_from(b, off).len() - 1 ==> (#[trigger] records_from(b, off)[k + 1]).0
                == records_from(b, off)[k].0 + records_from(b, off)[k].1,
    decreases b.len() - off,
{
    if !(off + 18 > b.len()) {
        let n = reclen_at(b, off);
        if !(n == 0 || off + n > b.len()) {
            lemma_records_chain(b, off + n);
            let rs = records_from(b, off);
            let rest = records_from(b, off + n);
            assert forall|k: int| 0 <= k < rs.len() implies (#[trigger] rs[k]).1 == b[rs[k].0 + 16] + 256
                * b[rs[k].0 + 17] by {
                if k > 0 {
                    assert(rs[k] == rest[k - 1]);
                }
            }
            assert(rs == seq![(off as usize, n as usize)] + rest);
            assert(rs.len() == rest.len() + 1);
            assert forall|k: int| 0 <= k < rs.len() - 1 implies (#[trigger] rs[k + 1]).0 == rs[k].0
                + rs[k].1 by {
                assert(rs[k + 1] == rest[k]);
                if k > 0 {
                    assert(rs[k] == rest[k - 1]);
                    let k1 = k - 1;
                    assert(rest[k1 + 1].0 == rest[k1].0 + rest[k1].1);
                } else {
                    assert(rs[0] == (off as usize, n as usize));
                    assert(rest[0].0 == off + n);
                }
            }
        }
    }
}

/// The directory entries of a `getdents64` buffer follow one another: the
/// first starts at offset 0, each is as long as the little-endian `u16` at
/// offset 16 of its header says, and the next starts where it ends; the
/// walk stops at a record that does not fit or has length 0.
pub proof fn law_dirent_chain(b: Seq<u8>)
    requires
        b.len() <= usize::MAX,
    ensures
        records_from(b, 0).len() > 0 ==> records_from(b, 0)[0].0 == 0,
        forall|k: int|
            0 <= k < records_from(b, 0).len() ==> (#[trigger] records_from(b, 0)[k]).1 == b[records_from(
                b,
                0,
            )[k].0 + 16] + 256 * b[records_from(b, 0)[k].0 + 17],
        forall|k: int|
            0 <= k < records_from(b, 0).len() - 1 ==> (#[trigger] records_from(b, 0)[k + 1]).0
                == records_from(b, 0)[k].0 + records_from(b, 0)[k].1,
        b.len() >= 18 && b[16] + 256 * b[17] > 0 && b[16] + 256 * b[17] <= b.len() ==> records_from(
            b,
            0,
        ).len() > 0,
{
    lemma_records_chain(b, 0);
}

} // verus!
