//! Little-endian primitives of both wire formats: integers, counted arrays
//! and zero-terminated strings, read from a byte slice at a given offset.

use crate::error::FormatError;
use vstd::prelude::*;
use vstd::slice::slice_subrange;
use vstd::slice::slice_to_vec;

verus! {

/// The views of a sequence of decoded records, one by one.
pub open spec fn views<T: View>(items: Seq<T>) -> Seq<T::V> {
    Seq::new(items.len(), |i: int| items[i]@)
}

/// The views of a list that has grown by one record are the views of the
/// list before, followed by the view of that record.
pub proof fn lemma_views_push<T: View>(items: Seq<T>, item: T)
    ensures
        views(items.push(item)) == views(items).push(item@),
{
    assert(views(items.push(item)) =~= views(items).push(item@));
}

/// Whether the `n` bytes from offset `at` on all lie inside `s`.
pub open spec fn in_bounds(s: Seq<u8>, at: int, n: int) -> bool {
    0 <= at && 0 <= n && at + n <= s.len()
}

/// The unsigned 16-bit integer stored at `at`, least significant byte first.
pub open spec fn le_u16(s: Seq<u8>, at: int) -> u16 {
    (s[at] as int + 256 * (s[at + 1] as int)) as u16
}

/// The unsigned 32-bit integer stored at `at`, least significant byte first.
pub open spec fn le_u32(s: Seq<u8>, at: int) -> u32 {
    (s[at] as int + 256 * (s[at + 1] as int) + 65536 * (s[at + 2] as int) + 16777216 * (
    s[at + 3] as int)) as u32
}

/// The signed 32-bit integer stored at `at` in two's complement, least
/// significant byte first.
pub open spec fn le_i32(s: Seq<u8>, at: int) -> i32 {
    let v: int = le_u32(s, at) as int;
    if v < 0x8000_0000 {
        v as i32
    } else {
        (v - 0x1_0000_0000) as i32
    }
}

/// `n` consecutive unsigned 16-bit integers, the first of them at `at`.
pub open spec fn le_u16s(s: Seq<u8>, at: int, n: nat) -> Seq<u16> {
    Seq::new(n, |i: int| le_u16(s, at + 2 * i))
}

/// `n` consecutive unsigned 32-bit integers, the first of them at `at`.
pub open spec fn le_u32s(s: Seq<u8>, at: int, n: nat) -> Seq<u32> {
    Seq::new(n, |i: int| le_u32(s, at + 4 * i))
}

/// The offset of the first zero byte at or after `at`, or the length of `s`
/// where there is none.
pub open spec fn nul_pos(s: Seq<u8>, at: int) -> int
    decreases s.len() - at,
{
    if at < 0 || at >= s.len() {
        s.len() as int
    } else if s[at] == 0 {
        at
    } else {
        nul_pos(s, at + 1)
    }
}

/// The zero-terminated string that starts at `at`, without its terminator,
/// and the offset behind the terminator; `None` where `at` lies outside `s`
/// or no zero byte follows.
pub open spec fn cstr_at(s: Seq<u8>, at: int) -> Option<(Seq<u8>, int)> {
    if 0 <= at <= s.len() && nul_pos(s, at) < s.len() {
        Some((s.subrange(at, nul_pos(s, at)), nul_pos(s, at) + 1))
    } else {
        None
    }
}

/// `nul_pos` finds the first zero byte: it lies between `at` and the end,
/// no byte before it is zero, and the byte at it is zero unless the end was
/// reached.
pub proof fn lemma_nul_pos_is_first_zero(s: Seq<u8>, at: int)
    requires
        0 <= at <= s.len(),
    ensures
        at <= nul_pos(s, at) <= s.len(),
        forall|j: int| at <= j < nul_pos(s, at) ==> s[j] != 0,
        nul_pos(s, at) < s.len() ==> s[nul_pos(s, at)] == 0,
    decreases s.len() - at,
{
    if at < s.len() && s[at] != 0 {
        lemma_nul_pos_is_first_zero(s, at + 1);
    }
}

/// Whether `s` begins with the bytes of `magic`.
pub open spec fn starts_with(s: Seq<u8>, magic: Seq<u8>) -> bool {
    magic.len() <= s.len() && forall|i: int| 0 <= i < magic.len() ==> s[i] == #[trigger] magic[i]
}

/// Tests whether `bytes` begins with `magic`.
pub fn has_prefix(bytes: &[u8], magic: &[u8]) -> (b: bool)
    ensures
        b == starts_with(bytes@, magic@),
{
    if bytes.len() < magic.len() {
        return false;
    }
    let mut i: usize = 0;
    while i < magic.len()
        invariant
            i <= magic.len() <= bytes.len(),
            forall|j: int| 0 <= j < i ==> bytes@[j] == magic@[j],
        decreases magic.len() - i,
    {
        if bytes[i] != magic[i] {
            return false;
        }
        i += 1;
    }
    true
}

/// Moves to the absolute offset `ptr`. An offset up to the end of the stream
/// is in range, the end itself included; one behind it is not.
pub fn seek(bytes: &[u8], ptr: u32) -> (r: Result<usize, FormatError>)
    ensures
        ptr <= bytes@.len() ==> r == Ok::<usize, FormatError>(ptr as usize),
        ptr > bytes@.len() ==> r == Err::<usize, FormatError>(FormatError::SeekOutOfRange),
{
    if ptr as usize > bytes.len() {
        Err(FormatError::SeekOutOfRange)
    } else {
        Ok(ptr as usize)
    }
}

/// Reads the unsigned 32-bit integer at `at`.
pub fn read_u32(bytes: &[u8], at: usize) -> (r: Result<u32, FormatError>)
    ensures
        in_bounds(bytes@, at as int, 4) ==> r == Ok::<u32, FormatError>(le_u32(bytes@, at as int)),
        !in_bounds(bytes@, at as int, 4) ==> r == Err::<u32, FormatError>(FormatError::Truncated),
{
    if at > bytes.len() || bytes.len() - at < 4 {
        return Err(FormatError::Truncated);
    }
    let b0: u32 = bytes[at] as u32;
    let b1: u32 = bytes[at + 1] as u32;
    let b2: u32 = bytes[at + 2] as u32;
    let b3: u32 = bytes[at + 3] as u32;
    Ok(b0 + 256 * b1 + 65536 * b2 + 16777216 * b3)
}

/// Reads the signed 32-bit integer at `at`.
pub fn read_i32(bytes: &[u8], at: usize) -> (r: Result<i32, FormatError>)
    ensures
        in_bounds(bytes@, at as int, 4) ==> r == Ok::<i32, FormatError>(le_i32(bytes@, at as int)),
        !in_bounds(bytes@, at as int, 4) ==> r == Err::<i32, FormatError>(FormatError::Truncated),
{
    match read_u32(bytes, at) {
        Err(e) => Err(e),
        Ok(v) => {
            if v < 0x8000_0000 {
                Ok(v as i32)
            } else {
                Ok(((v - 0x8000_0000) as i32) + i32::MIN)
            }
        },
    }
}

/// Copies `count` bytes from `at` on.
pub fn read_u8s(bytes: &[u8], at: usize, count: usize) -> (r: Result<Vec<u8>, FormatError>)
    ensures
        match r {
            Ok(v) => in_bounds(bytes@, at as int, count as int) && v@ == bytes@.subrange(
                at as int,
                at + count,
            ),
            Err(e) => !in_bounds(bytes@, at as int, count as int) && e == FormatError::Truncated,
        },
{
    if at > bytes.len() || count > bytes.len() - at {
        return Err(FormatError::Truncated);
    }
    Ok(slice_to_vec(slice_subrange(bytes, at, at + count)))
}

/// Reads `count` unsigned 16-bit integers from `at` on.
pub fn read_u16s(bytes: &[u8], at: usize, count: usize) -> (r: Result<Vec<u16>, FormatError>)
    ensures
        match r {
            Ok(v) => in_bounds(bytes@, at as int, 2 * count) && v@ == le_u16s(
                bytes@,
                at as int,
                count as nat,
            ),
            Err(e) => !in_bounds(bytes@, at as int, 2 * count) && e == FormatError::Truncated,
        },
{
    if at > bytes.len() || count > (bytes.len() - at) / 2 {
        return Err(FormatError::Truncated);
    }
    let mut out: Vec<u16> = Vec::with_capacity(count);
    let mut i: usize = 0;
    while i < count
        invariant
            i <= count,
            at + 2 * count <= bytes.len(),
            out@ == le_u16s(bytes@, at as int, i as nat),
        decreases count - i,
    {
        let p: usize = at + 2 * i;
        let lo: u16 = bytes[p] as u16;
        let hi: u16 = bytes[p + 1] as u16;
        out.push(lo + 256 * hi);
        i += 1;
        assert(out@ =~= le_u16s(bytes@, at as int, i as nat));
    }
    Ok(out)
}

/// Reads `count` unsigned 32-bit integers from `at` on.
pub fn read_u32s(bytes: &[u8], at: usize, count: usize) -> (r: Result<Vec<u32>, FormatError>)
    ensures
        match r {
            Ok(v) => in_bounds(bytes@, at as int, 4 * count) && v@ == le_u32s(
                bytes@,
                at as int,
                count as nat,
            ),
            Err(e) => !in_bounds(bytes@, at as int, 4 * count) && e == FormatError::Truncated,
        },
{
    if at > bytes.len() || count > (bytes.len() - at) / 4 {
        return Err(FormatError::Truncated);
    }
    let mut out: Vec<u32> = Vec::with_capacity(count);
    let mut i: usize = 0;
    while i < count
        invariant
            i <= count,
            at + 4 * count <= bytes.len(),
            out@ == le_u32s(bytes@, at as int, i as nat),
        decreases count - i,
    {
        let p: usize = at + 4 * i;
        let b0: u32 = bytes[p] as u32;
        let b1: u32 = bytes[p + 1] as u32;
        let b2: u32 = bytes[p + 2] as u32;
        let b3: u32 = bytes[p + 3] as u32;
        out.push(b0 + 256 * b1 + 65536 * b2 + 16777216 * b3);
        i += 1;
        assert(out@ =~= le_u32s(bytes@, at as int, i as nat));
    }
    Ok(out)
}

/// Reads the zero-terminated string at `at`: scans for the terminator, never
/// past the end of `bytes`, and returns the bytes before it together with
/// the offset behind it.
pub fn read_cstr(bytes: &[u8], at: usize) -> (r: Result<(Vec<u8>, usize), FormatError>)
    ensures
        match r {
            Ok((v, next)) => cstr_at(bytes@, at as int) == Some((v@, next as int)),
            Err(e) => cstr_at(bytes@, at as int).is_none() && e == FormatError::Truncated,
        },
{
    if at > bytes.len() {
        return Err(FormatError::Truncated);
    }
    let mut j: usize = at;
    while j < bytes.len() && bytes[j] != 0
        invariant
            at <= j <= bytes.len(),
            nul_pos(bytes@, at as int) == nul_pos(bytes@, j as int),
        decreases bytes.len() - j,
    {
        j += 1;
    }
    if j == bytes.len() {
        return Err(FormatError::Truncated);
    }
    Ok((slice_to_vec(slice_subrange(bytes, at, j)), j + 1))
}

} // verus!
