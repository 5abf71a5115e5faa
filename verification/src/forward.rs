//! The message in which a later launch forwards its archive paths to the
//! running instance: a little-endian `u32` count, then for each path a
//! `u32` length and the path's bytes.

use vstd::prelude::*;
use crate::le::{le_u32_at, u32_le, read_u32, write_u32, push_bytes, lemma_u32_le_round_trip, lemma_read_u32_written};

verus! {

/// The most paths one message may carry.
pub const MAX_PATHS: u64 = 1024;

/// The longest path a message may carry, in bytes.
pub const MAX_PATH_BYTES: u64 = 1_048_576;

/// Why a path message could not be written or read.
#[derive(Clone, Copy, Debug, PartialEq, Eq, Structural)]
pub enum MessageError {
    /// More paths than a message can count.
    TooManyPaths,
    /// A path longer than a message can hold.
    PathTooLong,
    /// A received message announces more than `MAX_PATHS` paths.
    TooManyForwardedPaths,
    /// A received path is longer than `MAX_PATH_BYTES`.
    ForwardedPathTooLong,
    /// The message ended early.
    UnexpectedEnd,
}

/// The message describing `e`.
pub open spec fn message_error_text(e: MessageError) -> Seq<char> {
    match e {
        MessageError::TooManyPaths => "too many paths"@,
        MessageError::PathTooLong => "path is too long"@,
        MessageError::TooManyForwardedPaths => "too many forwarded paths"@,
        MessageError::ForwardedPathTooLong => "forwarded path is too long"@,
        MessageError::UnexpectedEnd => "failed to fill whole buffer"@,
    }
}

impl MessageError {
    /// The message describing this error.
    pub fn message(&self) -> (r: &'static str)
        ensures
            r@ == message_error_text(*self),
    {
        match self {
            MessageError::TooManyPaths => "too many paths",
            MessageError::PathTooLong => "path is too long",
            MessageError::TooManyForwardedPaths => "too many forwarded paths",
            MessageError::ForwardedPathTooLong => "forwarded path is too long",
            MessageError::UnexpectedEnd => "failed to fill whole buffer",
        }
    }
}

/// The records (length, bytes) of `paths`.
pub open spec fn path_records(paths: Seq<Seq<u8>>) -> Seq<u8>
    decreases paths.len(),
{
    if paths.len() == 0 {
        Seq::empty()
    } else {
        path_records(paths.drop_last()) + u32_le(paths.last().len() as u32) + paths.last()
    }
}

/// The message carrying `paths`, or why there is none.
pub open spec fn path_message(paths: Seq<Seq<u8>>) -> Result<Seq<u8>, MessageError> {
    if paths.len() > u32::MAX {
        Err(MessageError::TooManyPaths)
    } else if exists|i: int| 0 <= i < paths.len() && paths[i].len() > u32::MAX {
        Err(MessageError::PathTooLong)
    } else {
        Ok(u32_le(paths.len() as u32) + path_records(paths))
    }
}

/// The paths from the `index`-th on, of `count`, whose records start at `pos`.
pub open spec fn paths_from(b: Seq<u8>, count: int, index: int, pos: int) -> Result<Seq<Seq<u8>>, MessageError>
    decreases count - index,
{
    if index >= count {
        Ok(Seq::empty())
    } else if pos + 4 > b.len() {
        Err(MessageError::UnexpectedEnd)
    } else {
        let length = le_u32_at(b, pos);
        if length > MAX_PATH_BYTES {
            Err(MessageError::ForwardedPathTooLong)
        } else if pos + 4 + length > b.len() {
            Err(MessageError::UnexpectedEnd)
        } else {
            match paths_from(b, count, index + 1, pos + 4 + length) {
                Err(e) => Err(e),
                Ok(rest) => Ok(seq![b.subrange(pos + 4, pos + 4 + length)] + rest),
            }
        }
    }
}

/// The paths that the message at the start of `b` carries, or why it cannot be read.
pub open spec fn read_message(b: Seq<u8>) -> Result<Seq<Seq<u8>>, MessageError> {
    if b.len() < 4 {
        Err(MessageError::UnexpectedEnd)
    } else if le_u32_at(b, 0) > MAX_PATHS {
        Err(MessageError::TooManyForwardedPaths)
    } else {
        paths_from(b, le_u32_at(b, 0), 0, 4)
    }
}

/// The views of a sequence of byte vectors.
pub open spec fn byte_views(v: Seq<Vec<u8>>) -> Seq<Seq<u8>> {
    v.map_values(|p: Vec<u8>| p@)
}

/// Writes the message carrying `paths` (each given by its bytes).
pub fn write_paths(paths: &[Vec<u8>]) -> (r: Result<Vec<u8>, MessageError>)
    ensures
        match path_message(byte_views(paths@)) {
            Ok(m) => r matches Ok(v) && v@ == m,
            Err(e) => r == Err::<Vec<u8>, MessageError>(e),
        },
{
    let ghost ps = byte_views(paths@);
    if paths.len() > 0xffff_ffff {
        return Err(MessageError::TooManyPaths);
    }
    let mut out: Vec<u8> = Vec::new();
    write_u32(&mut out, paths.len() as u32);
    let ghost head = out@;
    let mut i: usize = 0;
    assert(ps.take(0) =~= Seq::<Seq<u8>>::empty());
    assert(out@ =~= head + path_records(ps.take(0)));
    while i < paths.len()
        invariant
            ps == byte_views(paths@),
            ps.len() <= u32::MAX,
            i <= ps.len(),
            head == u32_le(ps.len() as u32),
            out@ == head + path_records(ps.take(i as int)),
            forall|j: int| 0 <= j < i ==> ps[j].len() <= u32::MAX,
        decreases ps.len() - i,
    {
        let p = &paths[i];
        assert(ps[i as int] == p@);
        if p.len() > 0xffff_ffff {
            assert(0 <= i < ps.len() && ps[i as int].len() > u32::MAX);
            return Err(MessageError::PathTooLong);
        }
        let ghost before = out@;
        write_u32(&mut out, p.len() as u32);
        push_bytes(&mut out, p.as_slice());
        assert(out@ =~= before + (u32_le(p@.len() as u32) + p@));
        assert(ps.take(i + 1).drop_last() =~= ps.take(i as int));
        i = i + 1;
        assert(out@ =~= head + path_records(ps.take(i as int)));
    }
    assert(ps.take(ps.len() as int) =~= ps);
    assert(!(exists|i: int| 0 <= i < ps.len() && ps[i].len() > u32::MAX));
    Ok(out)
}

/// `r` with `acc` put in front of its value.
pub open spec fn paths_prefixed(acc: Seq<Seq<u8>>, r: Result<Seq<Seq<u8>>, MessageError>) -> Result<Seq<Seq<u8>>, MessageError> {
    match r {
        Ok(rest) => Ok(acc + rest),
        Err(e) => Err(e),
    }
}

/// Reads the message at the start of `b`; an `UnexpectedEnd` error means
/// that more bytes are needed.
pub fn read_paths(b: &[u8]) -> (r: Result<Vec<Vec<u8>>, MessageError>)
    ensures
        match read_message(b@) {
            Ok(ps) => r matches Ok(v) && byte_views(v@) == ps,
            Err(e) => r == Err::<Vec<Vec<u8>>, MessageError>(e),
        },
{
    let count = match read_u32(b, 0) {
        Some(c) => c as u64,
        None => return Err(MessageError::UnexpectedEnd),
    };
    if count > MAX_PATHS {
        return Err(MessageError::TooManyForwardedPaths);
    }
    let len = b.len();
    let mut out: Vec<Vec<u8>> = Vec::new();
    let mut index: u64 = 0;
    let mut pos: usize = 4;
    let ghost whole = read_message(b@);
    assert(byte_views(out@) =~= Seq::<Seq<u8>>::empty());
    assert(whole == paths_prefixed(byte_views(out@), paths_from(b@, count as int, 0, 4))) by {
        if let Ok(rest) = whole {
            assert(Seq::<Seq<u8>>::empty() + rest =~= rest);
        }
    }
    while index < count
        invariant
            len == b@.len(),
            4 <= pos <= len,
            index <= count,
            whole == read_message(b@),
            whole == paths_prefixed(byte_views(out@), paths_from(b@, count as int, index as int, pos as int)),
        decreases count - index,
    {
        let ghost acc = byte_views(out@);
        let length = match read_u32(b, pos) {
            Some(l) => l as usize,
            None => return Err(MessageError::UnexpectedEnd),
        };
        if length as u64 > MAX_PATH_BYTES {
            return Err(MessageError::ForwardedPathTooLong);
        }
        if length > len - pos - 4 {
            return Err(MessageError::UnexpectedEnd);
        }
        let start = pos + 4;
        let bytes = vstd::slice::slice_to_vec(vstd::slice::slice_subrange(b, start, start + length));
        let ghost next = paths_from(b@, count as int, index + 1, (start + length) as int);
        out.push(bytes);
        proof {
            assert(byte_views(out@) =~= acc.push(bytes@));
            if let Ok(rest) = next {
                assert(acc + (seq![bytes@] + rest) =~= acc.push(bytes@) + rest);
            }
        }
        pos = start + length;
        index = index + 1;
    }
    proof {
        if let Ok(ps) = whole {
            assert(byte_views(out@) + Seq::<Seq<u8>>::empty() =~= byte_views(out@));
        }
    }
    Ok(out)
}


/// How far reading a message has got.
#[derive(Clone, Copy, Debug, PartialEq, Eq, Structural)]
pub enum Progress {
    /// The whole message is there: it is the first this many bytes.
    Complete(u64),
    /// The message goes on: at least this many more bytes are needed.
    Need(u64),
}

/// The progress of reading the records from the `index`-th on, of `count`,
/// starting at `pos`; the same steps as `paths_from`, without the bytes.
pub open spec fn progress_from(b: Seq<u8>, count: int, index: int, pos: int) -> Result<Progress, MessageError>
    decreases count - index,
{
    if index >= count {
        Ok(Progress::Complete(pos as u64))
    } else if pos + 4 > b.len() {
        Ok(Progress::Need((pos + 4 - b.len()) as u64))
    } else {
        let length = le_u32_at(b, pos);
        if length > MAX_PATH_BYTES {
            Err(MessageError::ForwardedPathTooLong)
        } else if pos + 4 + length > b.len() {
            Ok(Progress::Need((pos + 4 + length - b.len()) as u64))
        } else {
            progress_from(b, count, index + 1, pos + 4 + length)
        }
    }
}

/// How far the message at the start of `b` can be read.
pub open spec fn message_progress(b: Seq<u8>) -> Result<Progress, MessageError> {
    if b.len() < 4 {
        Ok(Progress::Need((4 - b.len()) as u64))
    } else if le_u32_at(b, 0) > MAX_PATHS {
        Err(MessageError::TooManyForwardedPaths)
    } else {
        progress_from(b, le_u32_at(b, 0), 0, 4)
    }
}

/// How far the message at the start of `b` can be read: complete (and how
/// long it is), in need of more bytes (and how many it needs at least), or bad.
pub fn read_progress(b: &[u8]) -> (r: Result<Progress, MessageError>)
    ensures
        r == message_progress(b@),
{
    let count = match read_u32(b, 0) {
        Some(c) => c as u64,
        None => return Ok(Progress::Need(4 - b.len() as u64)),
    };
    if count > MAX_PATHS {
        return Err(MessageError::TooManyForwardedPaths);
    }
    let len = b.len();
    let mut index: u64 = 0;
    let mut pos: usize = 4;
    while index < count
        invariant
            len == b@.len(),
            4 <= pos <= len,
            index <= count <= MAX_PATHS,
            message_progress(b@) == progress_from(b@, count as int, index as int, pos as int),
        decreases count - index,
    {
        let length = match read_u32(b, pos) {
            Some(l) => l as u64,
            None => return Ok(Progress::Need((4 - (len - pos)) as u64)),
        };
        if length > MAX_PATH_BYTES {
            return Err(MessageError::ForwardedPathTooLong);
        }
        if length > (len - pos - 4) as u64 {
            return Ok(Progress::Need(4 + length - (len - pos) as u64));
        }
        pos = pos + 4 + length as usize;
        index = index + 1;
    }
    Ok(Progress::Complete(pos as u64))
}

/// Reading goes the same way on `b` and on its first `n` bytes when it
/// completes at `n`; it needs more than `b` holds exactly when reading `b`
/// runs out of bytes; and it fails as reading the paths does.
proof fn lemma_progress_from(b: Seq<u8>, count: int, index: int, pos: int)
    requires
        0 <= pos <= b.len() <= u64::MAX,
    ensures
        match progress_from(b, count, index, pos) {
            Ok(Progress::Complete(n)) => pos <= n <= b.len() && paths_from(b, count, index, pos) is Ok
                && paths_from(b.take(n as int), count, index, pos) == paths_from(b, count, index, pos),
            Ok(Progress::Need(k)) => k > 0 && paths_from(b, count, index, pos) == Err::<Seq<Seq<u8>>, MessageError>(MessageError::UnexpectedEnd),
            Err(e) => paths_from(b, count, index, pos) == Err::<Seq<Seq<u8>>, MessageError>(e),
        },
    decreases count - index,
{
    if index >= count {
    } else if pos + 4 > b.len() {
    } else {
        let length = le_u32_at(b, pos);
        if length > MAX_PATH_BYTES {
        } else if pos + 4 + length > b.len() {
        } else {
            lemma_progress_from(b, count, index + 1, pos + 4 + length);
            if let Ok(Progress::Complete(n)) = progress_from(b, count, index, pos) {
                let t = b.take(n as int);
                assert(t.len() == n);
                assert(le_u32_at(t, pos) == le_u32_at(b, pos));
                assert(t.subrange(pos + 4, pos + 4 + length) =~= b.subrange(pos + 4, pos + 4 + length));
                assert(paths_from(t, count, index + 1, pos + 4 + length) == paths_from(b, count, index + 1, pos + 4 + length));
                assert(paths_from(t, count, index, pos) == paths_from(b, count, index, pos));
            }
        }
    }
}

/// When reading the message at the start of `b` completes at `n` bytes, the
/// paths read are those of its first `n` bytes: exactly those bytes are the
/// message. When it needs more bytes, reading the paths runs out of bytes.
pub proof fn lemma_progress_matches_reading(b: Seq<u8>)
    requires
        b.len() <= u64::MAX,
    ensures
        match message_progress(b) {
            Ok(Progress::Complete(n)) => n <= b.len() && read_message(b) is Ok
                && read_message(b.take(n as int)) == read_message(b),
            Ok(Progress::Need(k)) => k > 0 && read_message(b) == Err::<Seq<Seq<u8>>, MessageError>(MessageError::UnexpectedEnd),
            Err(e) => read_message(b) == Err::<Seq<Seq<u8>>, MessageError>(e),
        },
{
    if b.len() >= 4 && le_u32_at(b, 0) <= MAX_PATHS {
        lemma_progress_from(b, le_u32_at(b, 0), 0, 4);
        if let Ok(Progress::Complete(n)) = message_progress(b) {
            assert(le_u32_at(b.take(n as int), 0) == le_u32_at(b, 0));
        }
    }
}

/// The records of two runs of paths are the records of each, one after the other.
proof fn lemma_path_records_append(a: Seq<Seq<u8>>, b: Seq<Seq<u8>>)
    ensures
        path_records(a + b) == path_records(a) + path_records(b),
    decreases b.len(),
{
    if b.len() == 0 {
        assert(a + b =~= a);
        assert(path_records(a) + path_records(b) =~= path_records(a));
    } else {
        lemma_path_records_append(a, b.drop_last());
        assert((a + b).drop_last() =~= a + b.drop_last());
        assert((a + b).last() == b.last());
        assert(path_records(a + b) =~= path_records(a) + path_records(b));
    }
}

/// The records from the `i`-th on: the `i`-th record, then the rest.
proof fn lemma_path_records_split(ps: Seq<Seq<u8>>, i: int)
    requires
        0 <= i < ps.len(),
    ensures
        path_records(ps.skip(i)) == u32_le(ps[i].len() as u32) + ps[i] + path_records(ps.skip(i + 1)),
{
    let first = seq![ps[i]];
    assert(ps.skip(i) =~= first + ps.skip(i + 1));
    lemma_path_records_append(first, ps.skip(i + 1));
    assert(first.drop_last() =~= Seq::<Seq<u8>>::empty());
    assert(path_records(Seq::<Seq<u8>>::empty()) =~= Seq::<u8>::empty());
    assert(first.last() == ps[i]);
    assert(path_records(first) == path_records(first.drop_last()) + u32_le(first.last().len() as u32) + first.last());
    assert(path_records(first) =~= u32_le(ps[i].len() as u32) + ps[i]);
}

/// Reading the records from the `i`-th on gives the paths from the `i`-th on.
proof fn lemma_paths_from_records(b: Seq<u8>, ps: Seq<Seq<u8>>, base: int, i: int)
    requires
        0 <= i <= ps.len(),
        0 <= base,
        forall|j: int| 0 <= j < ps.len() ==> (#[trigger] ps[j]).len() <= MAX_PATH_BYTES,
        base + path_records(ps).len() <= b.len(),
        b.subrange(base, base + path_records(ps).len()) == path_records(ps),
    ensures
        paths_from(b, ps.len() as int, i, base + path_records(ps.take(i)).len()) == Ok::<Seq<Seq<u8>>, MessageError>(ps.skip(i)),
        progress_from(b, ps.len() as int, i, base + path_records(ps.take(i)).len()) == Ok::<Progress, MessageError>(
            Progress::Complete((base + path_records(ps).len()) as u64),
        ),
    decreases ps.len() - i,
{
    let pos = base + path_records(ps.take(i)).len();
    assert(ps.take(i) + ps.skip(i) =~= ps);
    lemma_path_records_append(ps.take(i), ps.skip(i));
    if i == ps.len() {
        assert(ps.skip(i) =~= Seq::<Seq<u8>>::empty());
        assert(ps.take(i) =~= ps);
    } else {
        lemma_path_records_split(ps, i);
        let rec = u32_le(ps[i].len() as u32) + ps[i];
        let len = ps[i].len();
        lemma_u32_le_round_trip(ps[i].len() as u32);
        assert(b.subrange(pos, pos + 4) =~= u32_le(ps[i].len() as u32)) by {
            assert forall|k: int| 0 <= k < 4 implies #[trigger] b.subrange(pos, pos + 4)[k] == u32_le(ps[i].len() as u32)[k] by {
                assert(b[pos + k] == b.subrange(base, base + path_records(ps).len())[pos - base + k]);
                assert(path_records(ps)[pos - base + k] == rec[k]);
            }
        }
        lemma_read_u32_written(b, pos, ps[i].len() as u32);
        assert(b.subrange(pos + 4, pos + 4 + len) =~= ps[i]) by {
            assert forall|k: int| 0 <= k < len implies #[trigger] b.subrange(pos + 4, pos + 4 + len)[k] == ps[i][k] by {
                assert(b[pos + 4 + k] == b.subrange(base, base + path_records(ps).len())[pos - base + 4 + k]);
                assert(path_records(ps)[pos - base + 4 + k] == rec[4 + k]);
            }
        }
        assert(ps.take(i + 1) =~= ps.take(i).push(ps[i]));
        assert(ps.take(i + 1).drop_last() =~= ps.take(i));
        assert(path_records(ps.take(i + 1)).len() == path_records(ps.take(i)).len() + 4 + len);
        lemma_paths_from_records(b, ps, base, i + 1);
        assert(ps.skip(i) =~= seq![ps[i]] + ps.skip(i + 1));
    }
}

/// A message that could be written reads back as the paths it carries,
/// whatever follows it, when it carries at most `MAX_PATHS` paths of at most
/// `MAX_PATH_BYTES` bytes each; reading it takes exactly its own bytes.
pub proof fn lemma_path_message_round_trip(ps: Seq<Seq<u8>>, rest: Seq<u8>)
    requires
        ps.len() <= MAX_PATHS,
        forall|j: int| 0 <= j < ps.len() ==> (#[trigger] ps[j]).len() <= MAX_PATH_BYTES,
    ensures
        path_message(ps) matches Ok(m) && read_message(m + rest) == Ok::<Seq<Seq<u8>>, MessageError>(ps)
            && message_progress(m + rest) == Ok::<Progress, MessageError>(Progress::Complete(m.len() as u64)),
{
    assert(!(exists|i: int| 0 <= i < ps.len() && ps[i].len() > u32::MAX));
    let m = u32_le(ps.len() as u32) + path_records(ps);
    let b = m + rest;
    lemma_u32_le_round_trip(ps.len() as u32);
    assert(b.subrange(0, 4) =~= u32_le(ps.len() as u32));
    lemma_read_u32_written(b, 0, ps.len() as u32);
    assert(b.subrange(4, 4 + path_records(ps).len() as int) =~= path_records(ps));
    lemma_paths_from_records(b, ps, 4, 0);
    assert(ps.take(0) =~= Seq::<Seq<u8>>::empty());
    assert(ps.skip(0) =~= ps);
}

} // verus!
