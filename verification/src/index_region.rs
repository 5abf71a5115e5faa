//! How much of an archive file reading it looks at: the header and the
//! three tables that follow it, never the resource data.  A reader can
//! therefore load that prefix alone (and leave the rest of a large file on
//! disk) and still get the archive that the whole file holds.

use vstd::prelude::*;
use std::path::PathBuf;
use crate::le::{le_u16_at, le_u32_at, read_u32};
use crate::archive::{ArchiveError, name_field_len};
use crate::erf::{
    HEADER_SIZE, Header, parse_header, localized_from, parse_localized, key_at, keys_upto,
    parse_keys, span_at, spans_upto, parse_spans, parse_archive, signature_kind, header_version,
};

verus! {

/// The larger of two integers.
pub open spec fn larger(a: int, b: int) -> int {
    if a < b {
        b
    } else {
        a
    }
}

/// How many bytes from the start of an archive file of `len` bytes, whose
/// first bytes are `head`, reading the archive looks at: the header, the
/// localized string table with room for one record header per string past
/// its end, and the key and resource lists (with name fields counted at
/// their longest, 32 bytes). A file shorter than a header, or a `head` too
/// short to hold the table positions, is looked at whole.
pub open spec fn index_end(head: Seq<u8>, len: int) -> int {
    if len < HEADER_SIZE || head.len() < 32 {
        len
    } else {
        let language_count = le_u32_at(head, 8);
        let localized_size = le_u32_at(head, 12);
        let entry_count = le_u32_at(head, 16);
        let localized_offset = le_u32_at(head, 20);
        let key_offset = le_u32_at(head, 24);
        let resource_offset = le_u32_at(head, 28);
        let end = larger(
            larger(HEADER_SIZE as int, localized_offset + localized_size + 8 * language_count),
            larger(key_offset + entry_count * 40, resource_offset + 8 * entry_count),
        );
        if end < len {
            end
        } else {
            len
        }
    }
}

/// `a` and `b` hold the same bytes below `n`.
pub open spec fn agree_below(a: Seq<u8>, b: Seq<u8>, n: int) -> bool {
    forall|i: int| 0 <= i < n ==> #[trigger] a[i] == b[i]
}

proof fn lemma_agree_le(a: Seq<u8>, b: Seq<u8>, n: int, p: int)
    requires
        agree_below(a, b, n),
        0 <= p,
        p + 4 <= n,
    ensures
        le_u32_at(a, p) == le_u32_at(b, p),
        le_u16_at(a, p) == le_u16_at(b, p),
{
    assert(a[p] == b[p]);
    assert(a[p + 1] == b[p + 1]);
    assert(a[p + 2] == b[p + 2]);
    assert(a[p + 3] == b[p + 3]);
}

proof fn lemma_agree_subrange(a: Seq<u8>, b: Seq<u8>, n: int, s: int, e: int)
    requires
        agree_below(a, b, n),
        0 <= s <= e <= n,
        e <= a.len(),
        e <= b.len(),
    ensures
        a.subrange(s, e) == b.subrange(s, e),
{
    assert forall|i: int| 0 <= i < e - s implies a.subrange(s, e)[i] == b.subrange(s, e)[i] by {
        assert(a[s + i] == b[s + i]);
    }
    assert(a.subrange(s, e) =~= b.subrange(s, e));
}

proof fn lemma_agree_weaken(a: Seq<u8>, b: Seq<u8>, n: int, m: int)
    requires
        agree_below(a, b, n),
        m <= n,
    ensures
        agree_below(a, b, m),
{
}

/// The localized records from `index` on read the same from two files of
/// one length that agree below the table's end plus one record header per string.
proof fn lemma_localized_frame(
    a: Seq<u8>,
    b: Seq<u8>,
    count: int,
    table_offset: int,
    table_size: int,
    index: int,
    pos: int,
)
    requires
        a.len() == b.len(),
        0 <= table_offset,
        0 <= table_size,
        0 <= index,
        table_offset <= pos <= table_offset + table_size + 8 * index,
        agree_below(a, b, larger(0, if table_offset + table_size + 8 * count < a.len() { table_offset + table_size + 8 * count } else { a.len() as int })),
    ensures
        localized_from(a, count, table_offset, table_size, index, pos) == localized_from(
            b,
            count,
            table_offset,
            table_size,
            index,
            pos,
        ),
    decreases count - index,
{
    let n = larger(0, if table_offset + table_size + 8 * count < a.len() { table_offset + table_size + 8 * count } else { a.len() as int });
    if index >= count {
    } else if pos + 8 > a.len() {
    } else {
        lemma_agree_le(a, b, n, pos);
        lemma_agree_le(a, b, n, pos + 4);
        let declared = le_u32_at(a, pos + 4);
        let start = pos + 8;
        let end = table_offset + table_size;
        let remaining = if end > start { end - start } else { 0 };
        let legacy = declared > remaining && count == 1 && index == 0 && declared == table_size
            && start == table_offset + 8;
        if declared > remaining && !legacy {
        } else {
            let size = if legacy { remaining } else { declared };
            if start + size > a.len() {
            } else {
                lemma_agree_subrange(a, b, n, start, start + size);
                lemma_localized_frame(a, b, count, table_offset, table_size, index + 1, start + size);
            }
        }
    }
}

proof fn lemma_key_frame(a: Seq<u8>, b: Seq<u8>, key_offset: int, nl: int, i: int, n: int)
    requires
        a.len() == b.len(),
        0 <= key_offset,
        0 <= i,
        0 < nl,
        key_offset + (i + 1) * (nl + 8) <= n || key_offset + i * (nl + 8) + nl + 8 > a.len(),
        agree_below(a, b, n),
    ensures
        key_at(a, key_offset, nl, i) == key_at(b, key_offset, nl, i),
{
    let p = key_offset + i * (nl + 8);
    assert(i * (nl + 8) >= 0) by (nonlinear_arith)
        requires
            0 <= i,
            0 < nl,
    ;
    assert(key_offset + (i + 1) * (nl + 8) == p + nl + 8) by (nonlinear_arith)
        requires
            p == key_offset + i * (nl + 8),
    ;
    if p + nl + 8 > a.len() {
    } else {
        lemma_agree_subrange(a, b, n, p, p + nl);
        lemma_agree_le(a, b, n, p + nl + 4);
    }
}

proof fn lemma_keys_frame(a: Seq<u8>, b: Seq<u8>, key_offset: int, nl: int, k: int, n: int, len_bound: int)
    requires
        a.len() == b.len(),
        0 <= key_offset,
        0 < nl <= 32,
        0 <= k,
        len_bound == a.len(),
        agree_below(a, b, n),
        n >= key_offset + k * (nl + 8) || n >= len_bound,
    ensures
        keys_upto(a, key_offset, nl, k) == keys_upto(b, key_offset, nl, k),
    decreases k,
{
    if k > 0 {
        assert(key_offset + (k - 1) * (nl + 8) <= key_offset + k * (nl + 8)) by (nonlinear_arith)
            requires
                0 < nl,
                k > 0,
        ;
        lemma_keys_frame(a, b, key_offset, nl, k - 1, n, len_bound);
        assert(key_offset + k * (nl + 8) == key_offset + (k - 1) * (nl + 8) + nl + 8) by (nonlinear_arith);
        lemma_key_frame(a, b, key_offset, nl, k - 1, n);
    }
}

proof fn lemma_spans_frame(a: Seq<u8>, b: Seq<u8>, resource_offset: int, k: int, n: int)
    requires
        a.len() == b.len(),
        0 <= resource_offset,
        0 <= k,
        agree_below(a, b, n),
        n >= resource_offset + 8 * k || n >= a.len(),
    ensures
        spans_upto(a, resource_offset, k) == spans_upto(b, resource_offset, k),
    decreases k,
{
    if k > 0 {
        lemma_spans_frame(a, b, resource_offset, k - 1, n);
        let p = resource_offset + 8 * (k - 1);
        if p + 8 <= a.len() {
            lemma_agree_le(a, b, n, p);
            lemma_agree_le(a, b, n, p + 4);
        }
    }
}

/// Reading an archive looks only at the bytes below `index_end`: two files
/// of the same length that agree there hold the same archive, or fail to
/// be read in the same way. The resource data is never looked at.
pub proof fn lemma_reading_looks_only_at_the_index(
    a: Seq<u8>,
    b: Seq<u8>,
    ext: Option<Seq<u8>>,
    path: PathBuf,
)
    requires
        a.len() == b.len(),
        agree_below(a, b, index_end(a, a.len() as int)),
    ensures
        parse_archive(a, ext, path) == parse_archive(b, ext, path),
{
    let len = a.len() as int;
    let n = index_end(a, len);
    if len < HEADER_SIZE {
        return;
    }
    lemma_agree_subrange(a, b, n, 0, 4);
    lemma_agree_subrange(a, b, n, 4, 8);
    assert(signature_kind(a, ext) == signature_kind(b, ext));
    assert(header_version(a) == header_version(b));
    assert(n >= HEADER_SIZE);
    lemma_agree_le(a, b, n, 8);
    lemma_agree_le(a, b, n, 12);
    lemma_agree_le(a, b, n, 16);
    lemma_agree_le(a, b, n, 20);
    lemma_agree_le(a, b, n, 24);
    lemma_agree_le(a, b, n, 28);
    lemma_agree_le(a, b, n, 40);
    assert(le_u32_at(a, 8) == le_u32_at(b, 8));
    assert(le_u32_at(a, 12) == le_u32_at(b, 12));
    assert(le_u32_at(a, 16) == le_u32_at(b, 16));
    assert(le_u32_at(a, 20) == le_u32_at(b, 20));
    assert(le_u32_at(a, 24) == le_u32_at(b, 24));
    assert(le_u32_at(a, 28) == le_u32_at(b, 28));
    assert(le_u32_at(a, 40) == le_u32_at(b, 40));
    assert(parse_header(a, ext) == parse_header(b, ext));
    match parse_header(a, ext) {
        Err(_) => {},
        Ok(h) => {
            let count = h.language_count as int;
            let toff = h.localized_offset as int;
            let tsize = h.localized_size as int;
            let m = larger(0, if toff + tsize + 8 * count < len { toff + tsize + 8 * count } else { len });
            lemma_agree_weaken(a, b, n, m);
            lemma_localized_frame(a, b, count, toff, tsize, 0, toff);
            assert(parse_localized(a, h) == parse_localized(b, h));
            let nl = name_field_len(h.version) as int;
            let k = h.entry_count as int;
            assert(h.key_offset + k * (nl + 8) <= h.key_offset + k * 40) by (nonlinear_arith)
                requires
                    0 <= k,
                    nl <= 32,
            ;
            lemma_keys_frame(a, b, h.key_offset as int, nl, k, n, len);
            assert(parse_keys(a, h) == parse_keys(b, h));
            lemma_spans_frame(a, b, h.resource_offset as int, k, n);
            assert(parse_spans(a, h) == parse_spans(b, h));
        },
    }
}

/// `index_end` reads only the first 32 bytes of what it is given.
pub proof fn lemma_index_end_of_a_prefix(file: Seq<u8>, k: int)
    requires
        32 <= k <= file.len(),
    ensures
        index_end(file.take(k), file.len() as int) == index_end(file, file.len() as int),
{
    let t = file.take(k);
    assert(le_u32_at(t, 8) == le_u32_at(file, 8));
    assert(le_u32_at(t, 12) == le_u32_at(file, 12));
    assert(le_u32_at(t, 16) == le_u32_at(file, 16));
    assert(le_u32_at(t, 20) == le_u32_at(file, 20));
    assert(le_u32_at(t, 24) == le_u32_at(file, 24));
    assert(le_u32_at(t, 28) == le_u32_at(file, 28));
}

/// The little-endian `u32` at `pos` in `head`, widened.
fn field_at(head: &[u8], pos: usize) -> (r: u64)
    requires
        pos + 4 <= head@.len(),
    ensures
        r == le_u32_at(head@, pos as int),
{
    match read_u32(head, pos) {
        Some(v) => v as u64,
        None => 0,
    }
}

/// How many bytes from the start of an archive file of `file_len` bytes,
/// whose first bytes are `head`, reading the archive needs (see `index_end`).
pub fn index_length(head: &[u8], file_len: u64) -> (r: u64)
    ensures
        r == index_end(head@, file_len as int),
        r <= file_len,
{
    if file_len < HEADER_SIZE || head.len() < 32 {
        return file_len;
    }
    let language_count = field_at(head, 8);
    let localized_size = field_at(head, 12);
    let entry_count = field_at(head, 16);
    let localized_offset = field_at(head, 20);
    let key_offset = field_at(head, 24);
    let resource_offset = field_at(head, 28);
    let mut end = HEADER_SIZE;
    let localized_end = localized_offset + localized_size + 8 * language_count;
    if end < localized_end {
        end = localized_end;
    }
    let key_end = key_offset + entry_count * 40;
    let resource_end = resource_offset + 8 * entry_count;
    let list_end = if key_end < resource_end {
        resource_end
    } else {
        key_end
    };
    if end < list_end {
        end = list_end;
    }
    if end < file_len {
        end
    } else {
        file_len
    }
}

} // verus!
