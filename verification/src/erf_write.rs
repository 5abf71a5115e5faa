//! Writing an archive's index (header, localized strings, key list and
//! resource list) in the ERF V1.0/V1.1 layout. The resource data follows
//! the index, in entry order.

use vstd::prelude::*;
use crate::le::{u16_le, u32_le, write_u16, write_u32, push_bytes};
use crate::text::utf8_len;
use crate::archive::{
    Archive, Entry, ArchiveError, ArchiveView, EntryView, LocalizedView, kind_signature, version_tag,
    name_field_len, localized_views,
};
use crate::order::entry_views;
use crate::build_date::{erf_build_date, days_before_year, is_build_date};
use vstd::utf8::encode_utf8;

verus! {

/// `n` zero bytes.
pub open spec fn zeros(n: int) -> Seq<u8> {
    Seq::new(n as nat, |i: int| 0u8)
}

/// The size of the localized string table: eight bytes of record header
/// plus the bytes of each string.
pub open spec fn localized_table_size(l: Seq<LocalizedView>) -> int
    decreases l.len(),
{
    if l.len() == 0 {
        0
    } else {
        localized_table_size(l.drop_last()) + 8 + l.last().bytes.len()
    }
}

/// The record of one localized string.
pub open spec fn localized_record(s: LocalizedView) -> Seq<u8> {
    u32_le(s.language_id) + u32_le(s.bytes.len() as u32) + s.bytes
}

/// The localized string table.
pub open spec fn localized_table(l: Seq<LocalizedView>) -> Seq<u8>
    decreases l.len(),
{
    if l.len() == 0 {
        Seq::empty()
    } else {
        localized_table(l.drop_last()) + localized_record(l.last())
    }
}

/// The key of the entry `e` at index `id`, with a name field of `nl` bytes.
pub open spec fn key_record(e: EntryView, id: int, nl: int) -> Seq<u8> {
    encode_utf8(e.name) + zeros(nl - utf8_len(e.name)) + u32_le(id as u32) + u16_le(e.type_id)
        + u16_le(0)
}

/// The key list of `entries`.
pub open spec fn key_list(entries: Seq<EntryView>, nl: int) -> Seq<u8>
    decreases entries.len(),
{
    if entries.len() == 0 {
        Seq::empty()
    } else {
        key_list(entries.drop_last(), nl) + key_record(entries.last(), entries.len() - 1, nl)
    }
}

/// The sum of `sizes`.
pub open spec fn total(sizes: Seq<u64>) -> int
    decreases sizes.len(),
{
    if sizes.len() == 0 {
        0
    } else {
        total(sizes.drop_last()) + sizes.last()
    }
}

/// The resource list for data of `sizes` laid out one after the other from `start`.
pub open spec fn span_list(sizes: Seq<u64>, start: int) -> Seq<u8>
    decreases sizes.len(),
{
    if sizes.len() == 0 {
        Seq::empty()
    } else {
        span_list(sizes.drop_last(), start) + u32_le((start + total(sizes.drop_last())) as u32)
            + u32_le(sizes.last() as u32)
    }
}

/// The index of the first entry whose name does not fit a name field of `nl` bytes.
pub open spec fn first_long_name(entries: Seq<EntryView>, nl: int) -> Option<int>
    decreases entries.len(),
{
    if entries.len() == 0 {
        None
    } else {
        match first_long_name(entries.drop_last(), nl) {
            Some(i) => Some(i),
            None => if utf8_len(entries.last().name) > nl {
                Some(entries.len() - 1)
            } else {
                None
            },
        }
    }
}

/// The first problem met laying out data of `sizes` from `start`: data
/// starting beyond 4 GiB, or a resource of 4 GiB or more.
pub open spec fn span_error(sizes: Seq<u64>, start: int) -> Option<ArchiveError>
    decreases sizes.len(),
{
    if sizes.len() == 0 {
        None
    } else {
        match span_error(sizes.drop_last(), start) {
            Some(e) => Some(e),
            None => if start + total(sizes.drop_last()) > u32::MAX {
                Some(ArchiveError::ArchiveExceeds4GiB)
            } else if sizes.last() > u32::MAX {
                Some(ArchiveError::ResourceExceeds4GiB)
            } else {
                None
            },
        }
    }
}

/// Where the tables of an archive's index go.
pub struct IndexLayout {
    pub localized_size: int,
    pub key_offset: int,
    pub resource_offset: int,
    pub data_offset: int,
}

/// The layout of the index of `a`.
pub open spec fn index_layout(a: ArchiveView) -> IndexLayout {
    let localized_size = localized_table_size(a.localized);
    let key_offset = 160 + localized_size;
    let resource_offset = key_offset + a.entries.len() * (name_field_len(a.version) + 8);
    IndexLayout {
        localized_size,
        key_offset,
        resource_offset,
        data_offset: resource_offset + a.entries.len() * 8,
    }
}

/// The header of `a` whose build date is `year` (since 1900) and `day`.
pub open spec fn header_bytes(a: ArchiveView, year: u32, day: u32) -> Seq<u8> {
    let l = index_layout(a);
    kind_signature(a.kind) + version_tag(a.version) + u32_le(a.localized.len() as u32) + u32_le(
        l.localized_size as u32,
    ) + u32_le(a.entries.len() as u32) + u32_le(160) + u32_le(l.key_offset as u32) + u32_le(
        l.resource_offset as u32,
    ) + u32_le(year) + u32_le(day) + u32_le(a.description_strref) + zeros(116)
}

/// Why the tables of `a` cannot be placed, if they cannot.
pub open spec fn layout_error(a: ArchiveView) -> Option<ArchiveError> {
    let l = index_layout(a);
    if a.entries.len() > u32::MAX {
        Some(ArchiveError::TooManyResourcesToWrite)
    } else if l.data_offset > u64::MAX {
        Some(ArchiveError::TooLarge)
    } else if l.localized_size > u32::MAX || l.key_offset > u32::MAX || l.resource_offset
        > u32::MAX || l.data_offset > u32::MAX {
        Some(ArchiveError::OffsetsExceed4GiB)
    } else {
        None
    }
}

/// The index of `a`, whose resources have the data sizes `sizes`, written
/// on day `days` since 1970 (as date `year`, `day`); or why it cannot be
/// written.
pub open spec fn encode_index(a: ArchiveView, sizes: Seq<u64>, year: u32, day: u32) -> Result<Seq<u8>, ArchiveError> {
    let l = index_layout(a);
    let nl = name_field_len(a.version) as int;
    match layout_error(a) {
        Some(e) => Err(e),
        None => {
        match first_long_name(a.entries, nl) {
            Some(i) => Err(ArchiveError::NameTooLong(i as usize, nl as usize)),
            None => match span_error(sizes, l.data_offset) {
                Some(e) => Err(e),
                None => Ok(
                    header_bytes(a, year, day) + localized_table(a.localized) + key_list(
                        a.entries,
                        nl,
                    ) + span_list(sizes, l.data_offset),
                ),
            },
        }
        },
    }
}


/// Appends `n` zero bytes.
fn push_zeros(out: &mut Vec<u8>, n: usize)
    ensures
        final(out)@ == old(out)@ + zeros(n as int),
{
    let ghost start = out@;
    let mut i: usize = 0;
    while i < n
        invariant
            i <= n,
            out@ == start + zeros(i as int),
        decreases n - i,
    {
        out.push(0);
        i = i + 1;
        assert(out@ =~= start + zeros(i as int));
    }
}

/// The size of the localized string table of `a`, or `None` when it does
/// not fit in 64 bits.
fn localized_size_of(a: &Archive) -> (r: Option<u64>)
    ensures
        match r {
            Some(n) => n == localized_table_size(a@.localized),
            None => localized_table_size(a@.localized) > u64::MAX,
        },
{
    let ghost l = a@.localized;
    let mut total: u64 = 0;
    let mut i: usize = 0;
    assert(l.take(0) =~= Seq::<LocalizedView>::empty());
    while i < a.localized.len()
        invariant
            l == a@.localized,
            i <= l.len(),
            total == localized_table_size(l.take(i as int)),
        decreases l.len() - i,
    {
        let n = a.localized[i].bytes.len() as u64;
        proof {
            assert(l.take(i + 1).drop_last() =~= l.take(i as int));
            assert(l[i as int] == a.localized@[i as int]@);
            lemma_localized_size_prefix(l, i + 1);
        }
        if n > u64::MAX - 8 || total > u64::MAX - 8 - n {
            return None;
        }
        total = total + 8 + n;
        i = i + 1;
    }
    assert(l.take(l.len() as int) =~= l);
    Some(total)
}

/// A prefix's table is never larger than the whole table.
proof fn lemma_localized_size_prefix(l: Seq<LocalizedView>, n: int)
    requires
        0 <= n <= l.len(),
    ensures
        localized_table_size(l.take(n)) <= localized_table_size(l),
    decreases l.len() - n,
{
    if n < l.len() {
        lemma_localized_size_prefix(l, n + 1);
        assert(l.take(n + 1).drop_last() =~= l.take(n));
    } else {
        assert(l.take(n) =~= l);
    }
}

/// The index of the first entry whose name is longer than `nl` bytes.
fn find_long_name(a: &Archive, nl: usize) -> (r: Option<usize>)
    ensures
        match first_long_name(a@.entries, nl as int) {
            Some(i) => r == Some(i as usize),
            None => r is None,
        },
{
    let ghost es = a@.entries;
    let mut i: usize = 0;
    assert(es.take(0) =~= Seq::<EntryView>::empty());
    while i < a.entries.len()
        invariant
            es == a@.entries,
            i <= es.len(),
            first_long_name(es.take(i as int), nl as int) is None,
        decreases es.len() - i,
    {
        let bytes = a.entries[i].name.as_str().as_bytes();
        proof {
            assert(es.take(i + 1).drop_last() =~= es.take(i as int));
            assert(es[i as int] == a.entries@[i as int]@);
        }
        if bytes.len() > nl {
            proof {
                lemma_first_long_name_stable(es, nl as int, i + 1);
            }
            return Some(i);
        }
        i = i + 1;
    }
    assert(es.take(es.len() as int) =~= es);
    None
}

/// A long name among the first `n` entries stays the first among all.
proof fn lemma_first_long_name_stable(es: Seq<EntryView>, nl: int, n: int)
    requires
        0 <= n <= es.len(),
        first_long_name(es.take(n), nl) is Some,
    ensures
        first_long_name(es, nl) == first_long_name(es.take(n), nl),
    decreases es.len() - n,
{
    if n < es.len() {
        assert(es.take(n + 1).drop_last() =~= es.take(n));
        lemma_first_long_name_stable(es, nl, n + 1);
    } else {
        assert(es.take(n) =~= es);
    }
}

/// A span error among the first `n` sizes stays the first among all.
proof fn lemma_span_error_stable(sizes: Seq<u64>, start: int, n: int)
    requires
        0 <= n <= sizes.len(),
        span_error(sizes.take(n), start) is Some,
    ensures
        span_error(sizes, start) == span_error(sizes.take(n), start),
    decreases sizes.len() - n,
{
    if n < sizes.len() {
        assert(sizes.take(n + 1).drop_last() =~= sizes.take(n));
        lemma_span_error_stable(sizes, start, n + 1);
    } else {
        assert(sizes.take(n) =~= sizes);
    }
}

/// The first problem with laying out data of `sizes` from `start`.
fn check_spans(sizes: &[u64], start: u64) -> (r: Option<ArchiveError>)
    ensures
        r == span_error(sizes@, start as int),
{
    let ghost ss = sizes@;
    let mut offset: u64 = start;
    let mut i: usize = 0;
    assert(ss.take(0) =~= Seq::<u64>::empty());
    while i < sizes.len()
        invariant
            ss == sizes@,
            i <= ss.len(),
            span_error(ss.take(i as int), start as int) is None,
            offset == start + total(ss.take(i as int)),
        decreases ss.len() - i,
    {
        proof {
            assert(ss.take(i + 1).drop_last() =~= ss.take(i as int));
        }
        if offset > 0xffff_ffff {
            proof { lemma_span_error_stable(ss, start as int, i + 1); }
            return Some(ArchiveError::ArchiveExceeds4GiB);
        }
        if sizes[i] > 0xffff_ffff {
            proof { lemma_span_error_stable(ss, start as int, i + 1); }
            return Some(ArchiveError::ResourceExceeds4GiB);
        }
        offset = offset + sizes[i];
        i = i + 1;
    }
    assert(ss.take(ss.len() as int) =~= ss);
    None
}

impl Archive {
    /// The index of this archive, written `days_since_epoch` days after
    /// 1 January 1970, whose resources have data sizes `sizes`. The
    /// resource data, in entry order, follows it in the file. The header's
    /// build date is that day's: a day has one (`lemma_build_date_unique`).
    pub fn index_bytes(&self, sizes: &[u64], days_since_epoch: u64) -> (r: Result<Vec<u8>, ArchiveError>)
        requires
            sizes@.len() == self@.entries.len(),
            days_since_epoch < days_before_year(u32::MAX as int + 1),
        ensures
            exists|year: u32, day: u32| #![trigger is_build_date(days_since_epoch as int, year, day)]
                is_build_date(days_since_epoch as int, year, day) && match encode_index(self@, sizes@, year, day) {
                    Ok(b) => r matches Ok(v) && v@ == b,
                    Err(e) => r == Err::<Vec<u8>, ArchiveError>(e),
                },
    {
        let (year, day) = erf_build_date(days_since_epoch);
        let r = self.index_bytes_dated(sizes, year, day);
        assert(is_build_date(days_since_epoch as int, year, day));
        r
    }

    /// The index of this archive whose resources have data sizes `sizes`,
    /// with the build date `year` (since 1900) and `day`.
    pub fn index_bytes_dated(&self, sizes: &[u64], year: u32, day: u32) -> (r: Result<Vec<u8>, ArchiveError>)
        requires
            sizes@.len() == self@.entries.len(),
        ensures
            match encode_index(self@, sizes@, year, day) {
                Ok(b) => r matches Ok(v) && v@ == b,
                Err(e) => r == Err::<Vec<u8>, ArchiveError>(e),
            },
    {
        let nl = self.version.name_len();
        let (localized_size, key_offset, resource_offset, data_offset) = match self.place_tables() {
            Ok(t) => t,
            Err(e) => return Err(e),
        };
        match find_long_name(self, nl) {
            Some(i) => return Err(ArchiveError::NameTooLong(i, nl)),
            None => {},
        }
        match check_spans(sizes, data_offset) {
            Some(e) => return Err(e),
            None => {},
        }
        let mut out: Vec<u8> = Vec::new();
        self.write_header(&mut out, localized_size as u32, key_offset as u32, resource_offset as u32, year, day);
        proof {
            lemma_localized_size_prefix(self@.localized, self@.localized.len() as int);
        }
        self.write_localized(&mut out);
        self.write_keys(&mut out, nl);
        write_spans(&mut out, sizes, data_offset);
        Ok(out)
    }

    /// Where the tables of the index go: the size of the localized string
    /// table and the offsets of the key list, resource list and data.
    fn place_tables(&self) -> (r: Result<(u64, u64, u64, u64), ArchiveError>)
        ensures
            match layout_error(self@) {
                Some(e) => r == Err::<(u64, u64, u64, u64), ArchiveError>(e),
                None => r matches Ok(t) && t.0 == index_layout(self@).localized_size
                    && t.1 == index_layout(self@).key_offset && t.2 == index_layout(self@).resource_offset
                    && t.3 == index_layout(self@).data_offset,
            },
    {
        let count = self.entries.len();
        if count > 0xffff_ffff {
            return Err(ArchiveError::TooManyResourcesToWrite);
        }
        let nl = self.version.name_len();
        let localized_size = match localized_size_of(self) {
            Some(n) => n,
            None => return Err(ArchiveError::TooLarge),
        };
        if localized_size > u64::MAX - 160 {
            return Err(ArchiveError::TooLarge);
        }
        let key_offset = 160 + localized_size;
        assert(count as u64 * (nl as u64 + 8) <= 0xffff_ffff * 40) by (nonlinear_arith)
            requires
                count <= 0xffff_ffff,
                nl <= 32,
        ;
        let key_size = count as u64 * (nl as u64 + 8);
        if key_offset > u64::MAX - key_size {
            return Err(ArchiveError::TooLarge);
        }
        let resource_offset = key_offset + key_size;
        if resource_offset > u64::MAX - count as u64 * 8 {
            return Err(ArchiveError::TooLarge);
        }
        let data_offset = resource_offset + count as u64 * 8;
        if localized_size > 0xffff_ffff || key_offset > 0xffff_ffff || resource_offset > 0xffff_ffff
            || data_offset > 0xffff_ffff {
            return Err(ArchiveError::OffsetsExceed4GiB);
        }
        Ok((localized_size, key_offset, resource_offset, data_offset))
    }

    /// Appends the header.
    fn write_header(&self, out: &mut Vec<u8>, localized_size: u32, key_offset: u32, resource_offset: u32, year: u32, day: u32)
        requires
            old(out)@.len() == 0,
            localized_size == index_layout(self@).localized_size,
            key_offset == index_layout(self@).key_offset,
            resource_offset == index_layout(self@).resource_offset,
            self@.entries.len() <= u32::MAX,
        ensures
            final(out)@ == header_bytes(self@, year, day),
    {
        push_bytes(out, &self.kind.signature());
        push_bytes(out, &self.version.bytes());
        write_u32(out, self.localized.len() as u32);
        write_u32(out, localized_size);
        write_u32(out, self.entries.len() as u32);
        write_u32(out, 160);
        write_u32(out, key_offset);
        write_u32(out, resource_offset);
        write_u32(out, year);
        write_u32(out, day);
        write_u32(out, self.description_strref);
        push_zeros(out, 116);
        assert(final(out)@ =~= header_bytes(self@, year, day));
    }

    /// Appends the localized string table.
    fn write_localized(&self, out: &mut Vec<u8>)
        requires
            localized_table_size(self@.localized) <= u32::MAX,
        ensures
            final(out)@ == old(out)@ + localized_table(self@.localized),
    {
        let ghost l = self@.localized;
        let ghost start = out@;
        let mut i: usize = 0;
        assert(l.take(0) =~= Seq::<LocalizedView>::empty());
        assert(out@ =~= start + localized_table(l.take(0)));
        while i < self.localized.len()
            invariant
                l == self@.localized,
                localized_table_size(l) <= u32::MAX,
                i <= l.len(),
                out@ == start + localized_table(l.take(i as int)),
            decreases l.len() - i,
        {
            let s = &self.localized[i];
            proof {
                assert(l.take(i + 1).drop_last() =~= l.take(i as int));
                assert(l[i as int] == s@);
                lemma_localized_size_prefix(l, i + 1);
            }
            let ghost before = out@;
            write_u32(out, s.language_id);
            write_u32(out, s.bytes.len() as u32);
            push_bytes(out, s.bytes.as_slice());
            assert(out@ =~= before + localized_record(s@));
            i = i + 1;
            assert(out@ =~= start + localized_table(l.take(i as int)));
        }
        assert(l.take(l.len() as int) =~= l);
    }

    /// Appends the key list; every name fits in `nl` bytes.
    fn write_keys(&self, out: &mut Vec<u8>, nl: usize)
        requires
            nl == name_field_len(self@.version),
            first_long_name(self@.entries, nl as int) is None,
            self@.entries.len() <= u32::MAX,
        ensures
            final(out)@ == old(out)@ + key_list(self@.entries, nl as int),
    {
        let ghost es = self@.entries;
        let ghost start = out@;
        let mut i: usize = 0;
        assert(es.take(0) =~= Seq::<EntryView>::empty());
        assert(out@ =~= start + key_list(es.take(0), nl as int));
        while i < self.entries.len()
            invariant
                es == self@.entries,
                first_long_name(es, nl as int) is None,
                es.len() <= u32::MAX,
                i <= es.len(),
                out@ == start + key_list(es.take(i as int), nl as int),
            decreases es.len() - i,
        {
            let e = &self.entries[i];
            let bytes = e.name.as_str().as_bytes();
            proof {
                assert(es.take(i + 1).drop_last() =~= es.take(i as int));
                assert(es[i as int] == e@);
                lemma_no_long_name(es, nl as int, i as int);
            }
            let ghost before = out@;
            push_bytes(out, bytes);
            push_zeros(out, nl - bytes.len());
            write_u32(out, i as u32);
            write_u16(out, e.type_id);
            write_u16(out, 0);
            assert(out@ =~= before + key_record(e@, i as int, nl as int));
            i = i + 1;
            assert(out@ =~= start + key_list(es.take(i as int), nl as int));
        }
        assert(es.take(es.len() as int) =~= es);
    }
}

/// When no name is too long, each entry's name fits.
pub proof fn lemma_no_long_name(es: Seq<EntryView>, nl: int, i: int)
    requires
        first_long_name(es, nl) is None,
        0 <= i < es.len(),
    ensures
        utf8_len(es[i].name) <= nl,
    decreases es.len(),
{
    if i < es.len() - 1 {
        lemma_no_long_name(es.drop_last(), nl, i);
    }
}

/// Appends the resource list for data of `sizes` laid out from `start`.
fn write_spans(out: &mut Vec<u8>, sizes: &[u64], start: u64)
    requires
        span_error(sizes@, start as int) is None,
    ensures
        final(out)@ == old(out)@ + span_list(sizes@, start as int),
{
    let ghost ss = sizes@;
    let ghost begin = out@;
    let mut offset: u64 = start;
    let mut i: usize = 0;
    assert(ss.take(0) =~= Seq::<u64>::empty());
    assert(out@ =~= begin + span_list(ss.take(0), start as int));
    while i < sizes.len()
        invariant
            ss == sizes@,
            span_error(ss, start as int) is None,
            i <= ss.len(),
            offset == start + total(ss.take(i as int)),
            out@ == begin + span_list(ss.take(i as int), start as int),
        decreases ss.len() - i,
    {
        proof {
            assert(ss.take(i + 1).drop_last() =~= ss.take(i as int));
            lemma_no_span_error(ss, start as int, i + 1);
        }
        let ghost before = out@;
        write_u32(out, offset as u32);
        write_u32(out, sizes[i] as u32);
        offset = offset + sizes[i];
        i = i + 1;
        assert(out@ =~= begin + span_list(ss.take(i as int), start as int));
    }
    assert(ss.take(ss.len() as int) =~= ss);
}

/// Without a span error in the whole, none among the first `n`, and each
/// of them fits.
proof fn lemma_no_span_error(ss: Seq<u64>, start: int, n: int)
    requires
        span_error(ss, start) is None,
        0 < n <= ss.len(),
    ensures
        span_error(ss.take(n), start) is None,
        start + total(ss.take(n - 1)) <= u32::MAX,
        ss[n - 1] <= u32::MAX,
    decreases ss.len() - n,
{
    if n < ss.len() {
        assert(ss.take(n + 1).drop_last() =~= ss.take(n));
        lemma_no_span_error(ss, start, n + 1);
    } else {
        assert(ss.take(n) =~= ss);
    }
    assert(ss.take(n).drop_last() =~= ss.take(n - 1));
}

} // verus!
