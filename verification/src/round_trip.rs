//! What reading gives back of what was written: an archive index written by
//! `Archive::index_bytes_dated`, followed by the resource data, reads back
//! with `Archive::from_bytes` as the same archive.

use vstd::prelude::*;
use std::path::PathBuf;
use vstd::utf8::{encode_utf8, decode_utf8, encode_scalar, char_is_scalar, encode_utf8_valid_utf8, encode_utf8_decode_utf8};
use crate::text::{trim_end, text_of, utf8_len, is_control};
use crate::archive::safe_resource_name;
use crate::order::{is_sorted, sort_entries, lemma_sort_sorted, lemma_sorted_same_keys};
use crate::archive::{LocalizedView, EntryView, ArchiveView, ArchiveKind, ArchiveVersion, DataView, kind_signature, version_tag, name_field_len};
use crate::erf::{parse_archive, parse_localized, parse_keys, parse_spans, file_entries, parse_header, signature_kind, header_version, is_sav_extension, Header, MAX_ARCHIVE_ENTRIES, MAX_LOCALIZED_STRING_TABLE_SIZE, nul_index, field_name, localized_from, key_at, keys_upto, KeyView, span_at, spans_upto, Span};
use crate::erf_write::{header_bytes, index_layout, encode_index, layout_error, first_long_name, lemma_no_long_name, zeros, localized_table, localized_table_size, localized_record, key_list, key_record, span_list, span_error, total};
use crate::le::{u32_le, u16_le, le_u32_at, le_u16_at, lemma_read_u32_written, lemma_read_u16_written};

verus! {

/// The bytes of a character's encoding are not zero, unless the character is NUL.
proof fn lemma_encode_scalar_nonzero(c: char)
    requires
        c as u32 != 0,
    ensures
        forall|k: int| 0 <= k < encode_scalar(c as u32).len() ==> #[trigger] encode_scalar(c as u32)[k] != 0,
{
    char_is_scalar(c);
    let u = c as u32;
    assert(u <= 0x7f && u != 0 ==> (u & 0x7F) as u8 != 0u8) by (bit_vector);
    assert((0xC0u8 | (((u >> 6) & 0x1F) as u8)) != 0u8) by (bit_vector);
    assert((0x80u8 | ((u & 0x3F) as u8)) != 0u8) by (bit_vector);
    assert((0x80u8 | (((u >> 6) & 0x3F) as u8)) != 0u8) by (bit_vector);
    assert((0xE0u8 | (((u >> 12) & 0x0F) as u8)) != 0u8) by (bit_vector);
    assert((0x80u8 | (((u >> 12) & 0x3F) as u8)) != 0u8) by (bit_vector);
    assert((0xF0u8 | (((u >> 18) & 0x7) as u8)) != 0u8) by (bit_vector);
}

/// Text without NUL characters encodes without zero bytes.
proof fn lemma_encode_utf8_nonzero(s: Seq<char>)
    requires
        forall|i: int| 0 <= i < s.len() ==> (#[trigger] s[i]) as u32 != 0,
    ensures
        forall|k: int| 0 <= k < encode_utf8(s).len() ==> #[trigger] encode_utf8(s)[k] != 0,
    decreases s.len(),
{
    if s.len() > 0 {
        let rest = s.drop_first();
        assert forall|i: int| 0 <= i < rest.len() implies (#[trigger] rest[i]) as u32 != 0 by {
            assert(rest[i] == s[i + 1]);
        }
        lemma_encode_utf8_nonzero(rest);
        lemma_encode_scalar_nonzero(s[0]);
        let first = encode_scalar(s[0] as u32);
        assert(encode_utf8(s) == first + encode_utf8(rest));
        assert forall|k: int| 0 <= k < encode_utf8(s).len() implies #[trigger] encode_utf8(s)[k] != 0 by {
            if k < first.len() {
                assert(encode_utf8(s)[k] == first[k]);
            } else {
                assert(encode_utf8(s)[k] == encode_utf8(rest)[k - first.len()]);
            }
        }
    }
}

/// The first zero of `x + y`, when `x` has none, is the first zero of `y`, shifted.
proof fn lemma_nul_index_after(x: Seq<u8>, y: Seq<u8>)
    requires
        forall|k: int| 0 <= k < x.len() ==> #[trigger] x[k] != 0,
    ensures
        nul_index(x + y) == x.len() + nul_index(y),
    decreases x.len(),
{
    if x.len() == 0 {
        assert(x + y =~= y);
    } else {
        let rest = x.drop_first();
        assert forall|k: int| 0 <= k < rest.len() implies #[trigger] rest[k] != 0 by {
            assert(rest[k] == x[k + 1]);
        }
        lemma_nul_index_after(rest, y);
        assert((x + y)[0] == x[0]);
        assert((x + y).drop_first() =~= rest + y);
    }
}

/// A name that reads back unchanged from a name field: safe, and without
/// trailing white space.
pub open spec fn readable_name(name: Seq<char>, nl: int) -> bool {
    safe_resource_name(name, nl) && trim_end(name) == name
}

/// The name field written for a readable name reads back as that name.
pub proof fn lemma_field_name_written(name: Seq<char>, nl: int)
    requires
        readable_name(name, nl),
    ensures
        field_name(encode_utf8(name) + zeros(nl - utf8_len(name))) == name,
{
    let enc = encode_utf8(name);
    let pad = zeros(nl - utf8_len(name));
    let field = enc + pad;
    assert forall|i: int| 0 <= i < name.len() implies (#[trigger] name[i]) as u32 != 0 by {
        assert(!is_control(name[i]));
    }
    lemma_encode_utf8_nonzero(name);
    lemma_nul_index_after(enc, pad);
    assert(nul_index(pad) == 0);
    assert(field.take(nul_index(field)) =~= enc);
    encode_utf8_valid_utf8(name);
    encode_utf8_decode_utf8(name);
    assert(text_of(enc) == name);
}


/// The table of two runs of strings is the table of each, one after the other.
proof fn lemma_localized_append(a: Seq<LocalizedView>, b: Seq<LocalizedView>)
    ensures
        localized_table(a + b) == localized_table(a) + localized_table(b),
        localized_table_size(a + b) == localized_table_size(a) + localized_table_size(b),
    decreases b.len(),
{
    if b.len() == 0 {
        assert(a + b =~= a);
        assert(localized_table(a) + localized_table(b) =~= localized_table(a));
    } else {
        lemma_localized_append(a, b.drop_last());
        assert((a + b).drop_last() =~= a + b.drop_last());
        assert((a + b).last() == b.last());
        assert(localized_table(a + b) =~= localized_table(a) + localized_table(b));
    }
}

/// The table is as long as its computed size, and each string takes its
/// length plus eight bytes of it.
proof fn lemma_localized_len(l: Seq<LocalizedView>)
    ensures
        localized_table(l).len() == localized_table_size(l),
        localized_table_size(l) >= 8 * l.len(),
        forall|i: int| 0 <= i < l.len() ==> 8 + (#[trigger] l[i]).bytes.len() <= localized_table_size(l),
    decreases l.len(),
{
    if l.len() > 0 {
        lemma_localized_len(l.drop_last());
        assert forall|i: int| 0 <= i < l.len() implies 8 + (#[trigger] l[i]).bytes.len() <= localized_table_size(l) by {
            if i < l.len() - 1 {
                assert(l[i] == l.drop_last()[i]);
            }
        }
    }
}

/// The table from the `i`-th string on: its record, then the rest.
proof fn lemma_localized_split(l: Seq<LocalizedView>, i: int)
    requires
        0 <= i < l.len(),
    ensures
        localized_table(l.skip(i)) == localized_record(l[i]) + localized_table(l.skip(i + 1)),
        localized_table_size(l.skip(i)) == 8 + l[i].bytes.len() + localized_table_size(l.skip(i + 1)),
{
    let first = seq![l[i]];
    assert(l.skip(i) =~= first + l.skip(i + 1));
    lemma_localized_append(first, l.skip(i + 1));
    assert(first.drop_last() =~= Seq::<LocalizedView>::empty());
    assert(first.last() == l[i]);
    assert(localized_table(Seq::<LocalizedView>::empty()) =~= Seq::<u8>::empty());
    assert(localized_table(first) == localized_table(first.drop_last()) + localized_record(first.last()));
    assert(localized_table(first) =~= localized_record(l[i]));
    assert(localized_table_size(first) == localized_table_size(first.drop_last()) + 8 + first.last().bytes.len());
}

/// Reading a written localized string table from its `i`-th record on
/// gives its strings from the `i`-th on.
#[verifier::spinoff_prover]
#[verifier::rlimit(50)]
proof fn lemma_localized_read(b: Seq<u8>, l: Seq<LocalizedView>, base: int, i: int)
    requires
        0 <= i <= l.len(),
        0 <= base,
        localized_table_size(l) <= u32::MAX,
        base + localized_table_size(l) <= b.len(),
        b.subrange(base, base + localized_table_size(l)) == localized_table(l),
    ensures
        localized_from(b, l.len() as int, base, localized_table_size(l), i, base + localized_table_size(l.take(i)))
            == Ok::<Seq<LocalizedView>, crate::archive::ArchiveError>(l.skip(i)),
    decreases l.len() - i,
{
    let size = localized_table_size(l);
    let pos = base + localized_table_size(l.take(i));
    lemma_localized_len(l);
    assert(l.take(i) + l.skip(i) =~= l);
    lemma_localized_append(l.take(i), l.skip(i));
    lemma_localized_len(l.take(i));
    if i == l.len() {
        assert(l.skip(i) =~= Seq::<LocalizedView>::empty());
    } else {
        lemma_localized_split(l, i);
        let item = l[i];
        let n = item.bytes.len();
        let rec = localized_record(item);
        let table = localized_table(l);
        let off = localized_table_size(l.take(i));
        assert(table.subrange(off, off + 8 + n) =~= rec);
        assert(n <= u32::MAX);
        assert(b.subrange(pos, pos + 4) =~= u32_le(item.language_id)) by {
            assert forall|k: int| 0 <= k < 4 implies #[trigger] b.subrange(pos, pos + 4)[k] == u32_le(item.language_id)[k] by {
                assert(b[pos + k] == b.subrange(base, base + size)[off + k]);
                assert(table[off + k] == rec[k]);
            }
        }
        assert(b.subrange(pos + 4, pos + 8) =~= u32_le(n as u32)) by {
            assert forall|k: int| 0 <= k < 4 implies #[trigger] b.subrange(pos + 4, pos + 8)[k] == u32_le(n as u32)[k] by {
                assert(b[pos + 4 + k] == b.subrange(base, base + size)[off + 4 + k]);
                assert(table[off + 4 + k] == rec[4 + k]);
            }
        }
        assert(b.subrange(pos + 8, pos + 8 + n) =~= item.bytes) by {
            assert forall|k: int| 0 <= k < n implies #[trigger] b.subrange(pos + 8, pos + 8 + n)[k] == item.bytes[k] by {
                assert(b[pos + 8 + k] == b.subrange(base, base + size)[off + 8 + k]);
                assert(table[off + 8 + k] == rec[8 + k]);
            }
        }
        lemma_read_u32_written(b, pos, item.language_id);
        lemma_read_u32_written(b, pos + 4, n as u32);
        assert(l.take(i + 1) =~= l.take(i).push(item));
        assert(l.take(i + 1).drop_last() =~= l.take(i));
        lemma_localized_read(b, l, base, i + 1);
        assert(l.skip(i) =~= seq![item] + l.skip(i + 1));
    }
}


/// Every entry's name fits a name field of `nl` bytes.
pub open spec fn names_fit(es: Seq<EntryView>, nl: int) -> bool {
    forall|j: int| 0 <= j < es.len() ==> utf8_len(#[trigger] es[j].name) <= nl
}

/// The key list holds one `nl + 8`-byte record per entry, the `i`-th at `i * (nl + 8)`.
proof fn lemma_key_list_at(es: Seq<EntryView>, nl: int, i: int)
    requires
        0 <= nl,
        names_fit(es, nl),
        0 <= i < es.len(),
    ensures
        key_list(es, nl).len() == es.len() * (nl + 8),
        key_list(es, nl).subrange(i * (nl + 8), i * (nl + 8) + nl + 8) == key_record(es[i], i, nl),
    decreases es.len(),
{
    let w = nl + 8;
    let t = es.drop_last();
    let n = es.len() - 1;
    let last = key_record(es.last(), n, nl);
    assert(encode_utf8(es.last().name).len() == utf8_len(es.last().name));
    assert(last.len() == w);
    assert(names_fit(t, nl)) by {
        assert forall|j: int| 0 <= j < t.len() implies utf8_len(#[trigger] t[j].name) <= nl by {
            assert(t[j] == es[j]);
        }
    }
    if n == 0 {
        assert(key_list(t, nl) =~= Seq::<u8>::empty());
        assert(key_list(es, nl) =~= last);
        assert(es.len() * w == w);
        assert(i == 0);
        assert(i * w == 0);
        assert(es.last() == es[i]);
        assert(key_list(es, nl).subrange(0, w) =~= last);
    } else {
        if i < n {
            lemma_key_list_at(t, nl, i);
            assert(t[i] == es[i]);
            assert(i * w + w <= n * w) by (nonlinear_arith)
                requires
                    i < n,
                    w > 0,
            ;
            assert(key_list(es, nl).subrange(i * w, i * w + w) =~= key_list(t, nl).subrange(i * w, i * w + w));
        } else {
            lemma_key_list_at(t, nl, 0);
            assert(i == n);
            assert(key_list(es, nl) == key_list(t, nl) + last);
            assert(i * w == key_list(t, nl).len());
            assert(es.last() == es[i]);
            assert(key_list(es, nl).subrange(i * w, i * w + w) =~= last);
        }
        lemma_key_list_at(t, nl, 0);
        assert(n * w + w == es.len() * w) by (nonlinear_arith)
            requires
                n == es.len() - 1,
        ;
        assert(key_list(es, nl) == key_list(t, nl) + last);
        assert(key_list(es, nl).len() == n * w + w);
    }
}

/// The `i`-th key of a written key list reads back as the `i`-th entry's name and type.
proof fn lemma_key_read(b: Seq<u8>, es: Seq<EntryView>, base: int, nl: int, i: int)
    requires
        0 <= nl,
        0 <= base,
        0 <= i < es.len(),
        forall|j: int| 0 <= j < es.len() ==> readable_name(#[trigger] es[j].name, nl),
        base + es.len() * (nl + 8) <= b.len(),
        b.subrange(base, base + es.len() * (nl + 8)) == key_list(es, nl),
    ensures
        key_at(b, base, nl, i) == Ok::<KeyView, crate::archive::ArchiveError>(KeyView { name: es[i].name, type_id: es[i].type_id }),
{
    let w = nl + 8;
    assert(names_fit(es, nl)) by {
        assert forall|j: int| 0 <= j < es.len() implies utf8_len(#[trigger] es[j].name) <= nl by {
            assert(readable_name(es[j].name, nl));
        }
    }
    lemma_key_list_at(es, nl, i);
    let e = es[i];
    let rec = key_record(e, i, nl);
    let p = base + i * w;
    assert(i * w + w <= es.len() * w) by (nonlinear_arith)
        requires
            i < es.len(),
            w > 0,
    ;
    assert(0 <= i * w) by (nonlinear_arith)
        requires
            0 <= i,
            w > 0,
    ;
    let table = key_list(es, nl);
    assert forall|k: int| 0 <= k < w implies #[trigger] b[p + k] == rec[k] by {
        assert(b[p + k] == b.subrange(base, base + es.len() * w)[i * w + k]);
        assert(table[i * w + k] == table.subrange(i * w, i * w + w)[k]);
    }
    let ulen = utf8_len(e.name);
    assert(readable_name(e.name, nl));
    assert(b.subrange(p, p + nl) =~= encode_utf8(e.name) + zeros(nl - ulen)) by {
        assert forall|k: int| 0 <= k < nl implies #[trigger] b.subrange(p, p + nl)[k] == (encode_utf8(e.name) + zeros(nl - ulen))[k] by {
            assert(b[p + k] == rec[k]);
        }
    }
    lemma_field_name_written(e.name, nl);
    assert(b.subrange(p + nl + 4, p + nl + 6) =~= u16_le(e.type_id)) by {
        assert forall|k: int| 0 <= k < 2 implies #[trigger] b.subrange(p + nl + 4, p + nl + 6)[k] == u16_le(e.type_id)[k] by {
            assert(b[p + nl + 4 + k] == rec[nl + 4 + k]);
        }
    }
    lemma_read_u16_written(b, p + nl + 4, e.type_id);
}

/// A written key list reads back, key by key, as the entries' names and types.
proof fn lemma_keys_read(b: Seq<u8>, es: Seq<EntryView>, base: int, nl: int, n: int)
    requires
        0 <= nl,
        0 <= base,
        0 <= n <= es.len(),
        forall|j: int| 0 <= j < es.len() ==> readable_name(#[trigger] es[j].name, nl),
        base + es.len() * (nl + 8) <= b.len(),
        b.subrange(base, base + es.len() * (nl + 8)) == key_list(es, nl),
    ensures
        keys_upto(b, base, nl, n) == Ok::<Seq<KeyView>, crate::archive::ArchiveError>(
            Seq::new(n as nat, |j: int| KeyView { name: es[j].name, type_id: es[j].type_id }),
        ),
    decreases n,
{
    if n > 0 {
        lemma_keys_read(b, es, base, nl, n - 1);
        lemma_key_read(b, es, base, nl, n - 1);
        assert(Seq::new(n as nat, |j: int| KeyView { name: es[j].name, type_id: es[j].type_id }) =~= Seq::new(
            (n - 1) as nat,
            |j: int| KeyView { name: es[j].name, type_id: es[j].type_id },
        ).push(KeyView { name: es[n - 1].name, type_id: es[n - 1].type_id }));
    } else {
        assert(Seq::new(0, |j: int| KeyView { name: es[j].name, type_id: es[j].type_id }) =~= Seq::<KeyView>::empty());
    }
}


/// A sum of sizes is never negative.
proof fn lemma_total_nonneg(sizes: Seq<u64>)
    ensures
        total(sizes) >= 0,
    decreases sizes.len(),
{
    if sizes.len() > 0 {
        lemma_total_nonneg(sizes.drop_last());
    }
}

/// The sum of a prefix is at most the sum of the whole.
proof fn lemma_total_prefix(sizes: Seq<u64>, n: int)
    requires
        0 <= n <= sizes.len(),
    ensures
        total(sizes.take(n)) <= total(sizes),
    decreases sizes.len() - n,
{
    if n < sizes.len() {
        lemma_total_prefix(sizes, n + 1);
        assert(sizes.take(n + 1).drop_last() =~= sizes.take(n));
    } else {
        assert(sizes.take(n) =~= sizes);
    }
}

/// No span error: every offset and size fits in 32 bits.
proof fn lemma_spans_fit(sizes: Seq<u64>, start: int, i: int)
    requires
        span_error(sizes, start) is None,
        0 <= i < sizes.len(),
    ensures
        start + total(sizes.take(i)) <= u32::MAX,
        sizes[i] <= u32::MAX,
    decreases sizes.len(),
{
    let t = sizes.drop_last();
    if i < sizes.len() - 1 {
        lemma_spans_fit(t, start, i);
        assert(t.take(i) =~= sizes.take(i));
        assert(t[i] == sizes[i]);
    } else {
        assert(t =~= sizes.take(i));
    }
}

/// The resource list holds one 8-byte record per resource, the `i`-th at `8 * i`.
proof fn lemma_span_list_at(sizes: Seq<u64>, start: int, i: int)
    requires
        0 <= i < sizes.len(),
    ensures
        span_list(sizes, start).len() == 8 * sizes.len(),
        span_list(sizes, start).subrange(8 * i, 8 * i + 8) == u32_le((start + total(sizes.take(i))) as u32)
            + u32_le(sizes[i] as u32),
    decreases sizes.len(),
{
    let t = sizes.drop_last();
    let n = sizes.len() - 1;
    let last = u32_le((start + total(t)) as u32) + u32_le(sizes.last() as u32);
    assert(span_list(sizes, start) == span_list(t, start) + last);
    if n == 0 {
        assert(span_list(t, start) =~= Seq::<u8>::empty());
        assert(t =~= sizes.take(0));
        assert(span_list(sizes, start).subrange(0, 8) =~= last);
    } else {
        lemma_span_list_at(t, start, 0);
        if i < n {
            lemma_span_list_at(t, start, i);
            assert(t.take(i) =~= sizes.take(i));
            assert(t[i] == sizes[i]);
            assert(span_list(sizes, start).subrange(8 * i, 8 * i + 8) =~= span_list(t, start).subrange(8 * i, 8 * i + 8));
        } else {
            assert(t =~= sizes.take(i));
            assert(span_list(sizes, start).subrange(8 * i, 8 * i + 8) =~= last);
        }
    }
}

/// The `i`-th record of a written resource list reads back as the place of the `i`-th data.
proof fn lemma_span_read(b: Seq<u8>, sizes: Seq<u64>, start: int, base: int, i: int)
    requires
        0 <= base,
        0 <= start,
        0 <= i < sizes.len(),
        span_error(sizes, start) is None,
        start + total(sizes) <= b.len(),
        base + 8 * sizes.len() <= b.len(),
        b.subrange(base, base + 8 * sizes.len()) == span_list(sizes, start),
    ensures
        span_at(b, base, i) == Ok::<Span, crate::archive::ArchiveError>(
            Span { offset: (start + total(sizes.take(i))) as u64, size: sizes[i] },
        ),
{
    lemma_span_list_at(sizes, start, i);
    lemma_spans_fit(sizes, start, i);
    let table = span_list(sizes, start);
    let rec = u32_le((start + total(sizes.take(i))) as u32) + u32_le(sizes[i] as u32);
    let p = base + 8 * i;
    assert forall|k: int| 0 <= k < 8 implies #[trigger] b[p + k] == rec[k] by {
        assert(b[p + k] == b.subrange(base, base + 8 * sizes.len())[8 * i + k]);
        assert(table[8 * i + k] == table.subrange(8 * i, 8 * i + 8)[k]);
    }
    assert(b.subrange(p, p + 4) =~= u32_le((start + total(sizes.take(i))) as u32)) by {
        assert forall|k: int| 0 <= k < 4 implies #[trigger] b.subrange(p, p + 4)[k] == u32_le((start + total(sizes.take(i))) as u32)[k] by {
            assert(b[p + k] == rec[k]);
        }
    }
    assert(b.subrange(p + 4, p + 8) =~= u32_le(sizes[i] as u32)) by {
        assert forall|k: int| 0 <= k < 4 implies #[trigger] b.subrange(p + 4, p + 8)[k] == u32_le(sizes[i] as u32)[k] by {
            assert(b[p + 4 + k] == rec[4 + k]);
        }
    }
    lemma_total_nonneg(sizes.take(i));
    lemma_read_u32_written(b, p, (start + total(sizes.take(i))) as u32);
    lemma_read_u32_written(b, p + 4, sizes[i] as u32);
    lemma_total_prefix(sizes, i + 1);
    assert(sizes.take(i + 1).drop_last() =~= sizes.take(i));
    assert(sizes.take(i + 1).last() == sizes[i]);
    assert(total(sizes.take(i + 1)) == total(sizes.take(i)) + sizes[i]);
    assert(le_u32_at(b, p) == start + total(sizes.take(i)));
    assert(le_u32_at(b, p + 4) == sizes[i]);
}

/// A written resource list reads back as the places of the data, one after the other.
proof fn lemma_spans_read(b: Seq<u8>, sizes: Seq<u64>, start: int, base: int, n: int)
    requires
        0 <= base,
        0 <= start,
        0 <= n <= sizes.len(),
        span_error(sizes, start) is None,
        start + total(sizes) <= b.len(),
        base + 8 * sizes.len() <= b.len(),
        b.subrange(base, base + 8 * sizes.len()) == span_list(sizes, start),
    ensures
        spans_upto(b, base, n) == Ok::<Seq<Span>, crate::archive::ArchiveError>(
            Seq::new(n as nat, |j: int| Span { offset: (start + total(sizes.take(j))) as u64, size: sizes[j] }),
        ),
    decreases n,
{
    if n > 0 {
        lemma_spans_read(b, sizes, start, base, n - 1);
        lemma_span_read(b, sizes, start, base, n - 1);
        assert(Seq::new(n as nat, |j: int| Span { offset: (start + total(sizes.take(j))) as u64, size: sizes[j] }) =~= Seq::new(
            (n - 1) as nat,
            |j: int| Span { offset: (start + total(sizes.take(j))) as u64, size: sizes[j] },
        ).push(Span { offset: (start + total(sizes.take(n - 1))) as u64, size: sizes[n - 1] }));
    } else {
        assert(Seq::new(0, |j: int| Span { offset: (start + total(sizes.take(j))) as u64, size: sizes[j] }) =~= Seq::<Span>::empty());
    }
}


/// The kind of an archive can be told from its signature and file
/// extension: a saved game has the extension `sav`, a module has not.
pub open spec fn kind_fits_extension(kind: ArchiveKind, ext: Option<Seq<u8>>) -> bool {
    (kind == ArchiveKind::Mod ==> !is_sav_extension(ext)) && (kind == ArchiveKind::Sav
        ==> is_sav_extension(ext))
}

/// A written header reads back as the header of the archive it was written for.
#[verifier::spinoff_prover]
#[verifier::rlimit(80)]
proof fn lemma_header_read(a: ArchiveView, year: u32, day: u32, rest: Seq<u8>, ext: Option<Seq<u8>>)
    requires
        kind_fits_extension(a.kind, ext),
        layout_error(a) is None,
        a.entries.len() <= MAX_ARCHIVE_ENTRIES,
        localized_table_size(a.localized) <= MAX_LOCALIZED_STRING_TABLE_SIZE,
        160 + rest.len() >= index_layout(a).data_offset,
    ensures
        header_bytes(a, year, day).len() == 160,
        parse_header(header_bytes(a, year, day) + rest, ext) == Ok::<Header, crate::archive::ArchiveError>(
            Header {
                kind: a.kind,
                version: a.version,
                language_count: a.localized.len() as u32,
                localized_size: index_layout(a).localized_size as u32,
                entry_count: a.entries.len() as u32,
                localized_offset: 160,
                key_offset: index_layout(a).key_offset as u32,
                resource_offset: index_layout(a).resource_offset as u32,
                description_strref: a.description_strref,
            },
        ),
{
    let l = index_layout(a);
    let h = header_bytes(a, year, day);
    let b = h + rest;
    lemma_localized_len(a.localized);
    let f = seq![
        a.localized.len() as u32, l.localized_size as u32, a.entries.len() as u32, 160u32,
        l.key_offset as u32, l.resource_offset as u32, year, day, a.description_strref,
    ];
    assert(h.len() == 160);
    assert(b.subrange(0, 4) =~= kind_signature(a.kind));
    assert(b.subrange(4, 8) =~= version_tag(a.version));
    assert forall|k: int| 0 <= k < 9 implies #[trigger] b.subrange(8 + 4 * k, 12 + 4 * k) == u32_le(f[k]) by {
        assert(b.subrange(8 + 4 * k, 12 + 4 * k) =~= u32_le(f[k]));
    }
    assert(b.subrange(8, 12) == u32_le(f[0]));
    assert(b.subrange(12, 16) == u32_le(f[1]));
    assert(b.subrange(16, 20) == u32_le(f[2]));
    assert(b.subrange(20, 24) == u32_le(f[3]));
    assert(b.subrange(24, 28) == u32_le(f[4]));
    assert(b.subrange(28, 32) == u32_le(f[5]));
    assert(b.subrange(40, 44) == u32_le(f[8]));
    lemma_read_u32_written(b, 8, f[0]);
    lemma_read_u32_written(b, 12, f[1]);
    lemma_read_u32_written(b, 16, f[2]);
    lemma_read_u32_written(b, 20, f[3]);
    lemma_read_u32_written(b, 24, f[4]);
    lemma_read_u32_written(b, 28, f[5]);
    lemma_read_u32_written(b, 40, f[8]);
    assert(kind_signature(ArchiveKind::Hak) != kind_signature(ArchiveKind::Erf)) by {
        assert(kind_signature(ArchiveKind::Hak)[0] != kind_signature(ArchiveKind::Erf)[0]);
    }
    assert(kind_signature(ArchiveKind::Hak) != kind_signature(ArchiveKind::Mod)) by {
        assert(kind_signature(ArchiveKind::Hak)[0] != kind_signature(ArchiveKind::Mod)[0]);
    }
    assert(kind_signature(ArchiveKind::Erf) != kind_signature(ArchiveKind::Mod)) by {
        assert(kind_signature(ArchiveKind::Erf)[0] != kind_signature(ArchiveKind::Mod)[0]);
    }
    assert(signature_kind(b, ext) == Some(a.kind));
    assert(version_tag(ArchiveVersion::V1_0) != version_tag(ArchiveVersion::V1_1)) by {
        assert(version_tag(ArchiveVersion::V1_0)[3] != version_tag(ArchiveVersion::V1_1)[3]);
    }
    assert(header_version(b) == Some(a.version));
}


/// The entries that an archive with entries `es` has once written with data
/// of `sizes` from `start` in the file at `path`: the same names and types,
/// each referring to its stretch of that file.
pub open spec fn written_entries(es: Seq<EntryView>, sizes: Seq<u64>, start: int, path: PathBuf) -> Seq<EntryView> {
    Seq::new(
        es.len(),
        |i: int| EntryView {
            name: es[i].name,
            type_id: es[i].type_id,
            data: DataView::ArchiveSlice {
                path,
                offset: (start + total(sizes.take(i))) as u64,
                size: sizes[i],
            },
        },
    )
}

/// What an archive `a` reads back as from the file at `path`, once written
/// with data of `sizes` placed from `start`.
pub open spec fn written_archive(a: ArchiveView, sizes: Seq<u64>, start: int, path: PathBuf) -> ArchiveView {
    ArchiveView {
        kind: a.kind,
        version: a.version,
        path: Some(path),
        entries: sort_entries(written_entries(a.entries, sizes, start, path)),
        localized: a.localized,
        description_strref: a.description_strref,
    }
}

/// An archive can be written and read back when its index can be written,
/// it has at most a million entries, its localized strings take at most
/// 64 MiB, its entries' names are safe and without trailing white space,
/// and its kind can be told from the file extension.
pub open spec fn reads_back(a: ArchiveView, sizes: Seq<u64>, year: u32, day: u32, ext: Option<Seq<u8>>) -> bool {
    &&& sizes.len() == a.entries.len()
    &&& encode_index(a, sizes, year, day) is Ok
    &&& a.entries.len() <= MAX_ARCHIVE_ENTRIES
    &&& localized_table_size(a.localized) <= MAX_LOCALIZED_STRING_TABLE_SIZE
    &&& forall|i: int| 0 <= i < a.entries.len() ==> readable_name(#[trigger] a.entries[i].name, name_field_len(a.version) as int)
    &&& kind_fits_extension(a.kind, ext)
}

/// A successful encoding is the four tables one after the other.
proof fn lemma_encode_ok(a: ArchiveView, sizes: Seq<u64>, year: u32, day: u32)
    requires
        encode_index(a, sizes, year, day) is Ok,
    ensures
        layout_error(a) is None,
        first_long_name(a.entries, name_field_len(a.version) as int) is None,
        span_error(sizes, index_layout(a).data_offset) is None,
        encode_index(a, sizes, year, day) == Ok::<Seq<u8>, crate::archive::ArchiveError>(
            header_bytes(a, year, day) + localized_table(a.localized) + key_list(a.entries, name_field_len(a.version) as int)
                + span_list(sizes, index_layout(a).data_offset),
        ),
{
}

/// A header is 160 bytes long.
proof fn lemma_header_len(a: ArchiveView, year: u32, day: u32)
    ensures
        header_bytes(a, year, day).len() == 160,
{
}

/// Readable names fit their name fields.
proof fn lemma_readable_fit(es: Seq<EntryView>, nl: int)
    requires
        forall|i: int| 0 <= i < es.len() ==> readable_name(#[trigger] es[i].name, nl),
    ensures
        names_fit(es, nl),
{
    assert forall|j: int| 0 <= j < es.len() implies utf8_len(#[trigger] es[j].name) <= nl by {
        assert(readable_name(es[j].name, nl));
    }
}

/// The lengths of the key list and resource list.
proof fn lemma_table_lengths(es: Seq<EntryView>, nl: int, sizes: Seq<u64>, start: int)
    requires
        0 <= nl,
        names_fit(es, nl),
        sizes.len() == es.len(),
    ensures
        key_list(es, nl).len() == es.len() * (nl + 8),
        span_list(sizes, start).len() == 8 * es.len(),
{
    if es.len() > 0 {
        lemma_key_list_at(es, nl, 0);
        lemma_span_list_at(sizes, start, 0);
    } else {
        assert(key_list(es, nl) =~= Seq::<u8>::empty());
        assert(sizes =~= Seq::<u64>::empty());
        assert(span_list(sizes, start) =~= Seq::<u8>::empty());
    }
}

/// Where each piece of a written file lies.
proof fn lemma_pieces(hb: Seq<u8>, lt: Seq<u8>, kl: Seq<u8>, sl: Seq<u8>, data: Seq<u8>)
    requires
        hb.len() == 160,
    ensures
        ({
            let b = hb + lt + kl + sl + data;
            &&& b == hb + (lt + kl + sl + data)
            &&& b.subrange(160, 160 + (lt.len() as int)) == lt
            &&& b.subrange(160 + (lt.len() as int), 160 + (lt.len() as int) + (kl.len() as int)) == kl
            &&& b.subrange(160 + (lt.len() as int) + (kl.len() as int), 160 + (lt.len() as int) + (kl.len() as int) + (sl.len() as int)) == sl
        }),
{
    let b = hb + lt + kl + sl + data;
    assert(b =~= hb + (lt + kl + sl + data));
    assert(b.subrange(160, 160 + (lt.len() as int)) =~= lt);
    assert(b.subrange(160 + (lt.len() as int), 160 + (lt.len() as int) + (kl.len() as int)) =~= kl);
    assert(b.subrange(160 + (lt.len() as int) + (kl.len() as int), 160 + (lt.len() as int) + (kl.len() as int) + (sl.len() as int)) =~= sl);
}

/// The data of each resource lies where its entry says.
proof fn lemma_data_placed(index: Seq<u8>, data: Seq<u8>, sizes: Seq<u64>)
    requires
        data.len() == total(sizes),
    ensures
        forall|i: int| 0 <= i < sizes.len() ==> (index + data).subrange(
            index.len() + total(sizes.take(i)),
            index.len() + total(sizes.take(i)) + sizes[i],
        ) == #[trigger] data.subrange(total(sizes.take(i)), total(sizes.take(i)) + sizes[i]),
{
    assert forall|i: int| 0 <= i < sizes.len() implies (index + data).subrange(
        index.len() + total(sizes.take(i)),
        index.len() + total(sizes.take(i)) + sizes[i],
    ) == #[trigger] data.subrange(total(sizes.take(i)), total(sizes.take(i)) + sizes[i]) by {
        lemma_total_nonneg(sizes.take(i));
        lemma_total_prefix(sizes, i + 1);
        assert(sizes.take(i + 1).drop_last() =~= sizes.take(i));
        assert(sizes.take(i + 1).last() == sizes[i]);
        assert((index + data).subrange(index.len() + total(sizes.take(i)), index.len() + total(sizes.take(i)) + sizes[i])
            =~= data.subrange(total(sizes.take(i)), total(sizes.take(i)) + sizes[i]));
    }
}

/// Reading gives back what was written: the index that `index_bytes` writes
/// for an archive, followed by the resources' data (of the sizes it was
/// given), reads back with `from_bytes` as the same archive: kind, version,
/// localized strings, description reference, and entries with the same
/// names and types, sorted as every read sorts them (so in the same order
/// when they were sorted), each entry referring to exactly the bytes of its
/// own data.
#[verifier::spinoff_prover]
#[verifier::rlimit(100)]
pub proof fn lemma_archive_round_trip(
    a: ArchiveView,
    sizes: Seq<u64>,
    year: u32,
    day: u32,
    data: Seq<u8>,
    ext: Option<Seq<u8>>,
    path: PathBuf,
)
    requires
        reads_back(a, sizes, year, day, ext),
        data.len() == total(sizes),
    ensures
        encode_index(a, sizes, year, day) matches Ok(index) && {
            &&& index.len() == index_layout(a).data_offset
            &&& parse_archive(index + data, ext, path) == Ok::<ArchiveView, crate::archive::ArchiveError>(
                written_archive(a, sizes, index.len() as int, path),
            )
            &&& is_sorted(a.entries) ==> written_archive(a, sizes, index.len() as int, path).entries
                == written_entries(a.entries, sizes, index.len() as int, path)
            &&& forall|i: int| 0 <= i < sizes.len() ==> (index + data).subrange(
                index.len() + total(sizes.take(i)),
                index.len() + total(sizes.take(i)) + sizes[i],
            ) == #[trigger] data.subrange(total(sizes.take(i)), total(sizes.take(i)) + sizes[i])
        },
{
    let l = index_layout(a);
    let nl = name_field_len(a.version) as int;
    let w = nl + 8;
    let es = a.entries;
    let count = es.len() as int;
    let hb = header_bytes(a, year, day);
    let lt = localized_table(a.localized);
    let kl = key_list(es, nl);
    let sl = span_list(sizes, l.data_offset);
    let index = hb + lt + kl + sl;
    let b = index + data;
    lemma_encode_ok(a, sizes, year, day);
    lemma_header_len(a, year, day);
    lemma_localized_len(a.localized);
    lemma_readable_fit(es, nl);
    lemma_table_lengths(es, nl, sizes, l.data_offset);
    lemma_pieces(hb, lt, kl, sl, data);
    let rest = lt + kl + sl + data;
    lemma_header_read(a, year, day, rest, ext);
    let h = Header {
        kind: a.kind,
        version: a.version,
        language_count: a.localized.len() as u32,
        localized_size: l.localized_size as u32,
        entry_count: count as u32,
        localized_offset: 160,
        key_offset: l.key_offset as u32,
        resource_offset: l.resource_offset as u32,
        description_strref: a.description_strref,
    };
    assert(parse_header(b, ext) == Ok::<Header, crate::archive::ArchiveError>(h));
    lemma_localized_read(b, a.localized, 160, 0);
    assert(a.localized.take(0) =~= Seq::<LocalizedView>::empty());
    assert(a.localized.skip(0) =~= a.localized);
    assert(parse_localized(b, h) == Ok::<Seq<LocalizedView>, crate::archive::ArchiveError>(a.localized));
    lemma_keys_read(b, es, l.key_offset, nl, count);
    let keys = Seq::new(count as nat, |j: int| KeyView { name: es[j].name, type_id: es[j].type_id });
    assert(parse_keys(b, h) == Ok::<Seq<KeyView>, crate::archive::ArchiveError>(keys));
    lemma_total_nonneg(sizes);
    lemma_spans_read(b, sizes, l.data_offset, l.resource_offset, count);
    let spans = Seq::new(count as nat, |j: int| Span { offset: (l.data_offset + total(sizes.take(j))) as u64, size: sizes[j] });
    assert(parse_spans(b, h) == Ok::<Seq<Span>, crate::archive::ArchiveError>(spans));
    let fe = file_entries(keys, spans, path);
    let we = written_entries(es, sizes, l.data_offset, path);
    assert(fe =~= we);
    if is_sorted(es) {
        lemma_sorted_same_keys(es, we);
        lemma_sort_sorted(we);
    }
    assert(parse_archive(b, ext, path) == Ok::<ArchiveView, crate::archive::ArchiveError>(written_archive(a, sizes, index.len() as int, path)));
    lemma_data_placed(index, data, sizes);
}


/// The resource id in the `i`-th record of a key list placed after `pre`.
proof fn lemma_key_id_in(pre: Seq<u8>, es: Seq<EntryView>, nl: int, post: Seq<u8>, i: int)
    requires
        0 <= nl,
        names_fit(es, nl),
        0 <= i < es.len(),
        i <= u32::MAX,
    ensures
        le_u32_at(pre + key_list(es, nl) + post, pre.len() + i * (nl + 8) + nl) == i,
{
    let w = nl + 8;
    let kl = key_list(es, nl);
    let b = pre + kl + post;
    lemma_key_list_at(es, nl, i);
    let rec = key_record(es[i], i, nl);
    assert(encode_utf8(es[i].name).len() == utf8_len(es[i].name));
    assert(0 <= i * w) by (nonlinear_arith)
        requires
            0 <= i,
            w > 0,
    ;
    assert(i * w + w <= es.len() * w) by (nonlinear_arith)
        requires
            i < es.len(),
            w > 0,
    ;
    let p = pre.len() + i * w;
    assert(b.subrange(p + nl, p + nl + 4) =~= u32_le(i as u32)) by {
        assert forall|k: int| 0 <= k < 4 implies #[trigger] b.subrange(p + nl, p + nl + 4)[k] == u32_le(i as u32)[k] by {
            assert(b[p + nl + k] == kl[i * w + nl + k]);
            assert(kl[i * w + nl + k] == kl.subrange(i * w, i * w + w)[nl + k]);
            assert(rec[nl + k] == u32_le(i as u32)[k]);
        }
    }
    lemma_read_u32_written(b, p + nl, i as u32);
}

/// The header says where the key list starts.
#[verifier::spinoff_prover]
#[verifier::rlimit(100)]
proof fn lemma_header_key_offset(a: ArchiveView, year: u32, day: u32, rest: Seq<u8>)
    requires
        index_layout(a).key_offset <= u32::MAX,
    ensures
        le_u32_at(header_bytes(a, year, day) + rest, 24) == index_layout(a).key_offset,
{
    lemma_localized_len(a.localized);
    let l = index_layout(a);
    let ko = u32_le(l.key_offset as u32);
    let p = kind_signature(a.kind) + version_tag(a.version) + u32_le(a.localized.len() as u32) + u32_le(
        l.localized_size as u32,
    ) + u32_le(a.entries.len() as u32) + u32_le(160);
    let x = p + ko;
    assert(p.len() == 24);
    assert(x.len() == 28);
    let hb = header_bytes(a, year, day);
    assert(hb == x + u32_le(l.resource_offset as u32) + u32_le(year) + u32_le(day) + u32_le(a.description_strref)
        + zeros(116));
    assert(hb.len() == 160);
    let b = hb + rest;
    assert forall|k: int| 0 <= k < 4 implies #[trigger] b.subrange(24, 28)[k] == ko[k] by {
        assert(b[24 + k] == hb[24 + k]);
        assert(hb[24 + k] == x[24 + k]);
        assert(x[24 + k] == ko[k]);
    }
    assert(b.subrange(24, 28) =~= ko);
    lemma_read_u32_written(b, 24, l.key_offset as u32);
}

/// In an index that is written, the key of the `i`-th entry, found where
/// the header says the key list starts plus `i` records of a name field and
/// eight bytes, holds `i` as its resource id: each key names its own
/// resource, and no two keys name the same one.
#[verifier::spinoff_prover]
pub proof fn lemma_keys_number_resources(a: ArchiveView, sizes: Seq<u64>, year: u32, day: u32)
    requires
        encode_index(a, sizes, year, day) is Ok,
    ensures
        match encode_index(a, sizes, year, day) {
            Ok(b) => forall|i: int|
                0 <= i < a.entries.len() ==> #[trigger] le_u32_at(
                    b,
                    le_u32_at(b, 24) + i * (name_field_len(a.version) + 8) + name_field_len(a.version),
                ) == i,
            Err(_) => true,
        },
{
    let l = index_layout(a);
    let nl = name_field_len(a.version) as int;
    let es = a.entries;
    let hb = header_bytes(a, year, day);
    let lt = localized_table(a.localized);
    let kl = key_list(es, nl);
    let sl = span_list(sizes, l.data_offset);
    lemma_encode_ok(a, sizes, year, day);
    lemma_header_len(a, year, day);
    lemma_localized_len(a.localized);
    let pre = hb + lt;
    assert(pre.len() == l.key_offset);
    let b = pre + kl + sl;
    assert(hb + lt + kl + sl == b);
    assert(b == hb + (lt + kl + sl)) by {
        assert(b =~= hb + (lt + kl + sl));
    }
    lemma_header_key_offset(a, year, day, lt + kl + sl);
    assert(names_fit(es, nl)) by {
        assert forall|j: int| 0 <= j < es.len() implies utf8_len(#[trigger] es[j].name) <= nl by {
            lemma_no_long_name(es, nl, j);
        }
    }
    assert forall|i: int| 0 <= i < es.len() implies #[trigger] le_u32_at(b, le_u32_at(b, 24) + i * (nl + 8) + nl) == i by {
        lemma_key_id_in(pre, es, nl, sl, i);
    }
}

} // verus!
