//! The ERF V1.0/V1.1 file format: reading an archive's index from the
//! bytes of the file.
//!
//! Layout: a 160-byte header; a table of localized strings (language id,
//! length, bytes); a key list (name field, resource id, type, unused); a
//! resource list (offset, size); then the resource data.

use vstd::prelude::*;
use std::path::PathBuf;
use crate::le::{le_u16_at, le_u32_at, read_u16, read_u32};
use crate::text::{trim_end, text_of, decode_lossy, chars_of, trim_end_chars, string_from_chars};
use crate::archive::{
    ArchiveKind, ArchiveVersion, ArchiveError, Region, Archive, Entry, EntryData, EntryView,
    DataView, LocalizedString, LocalizedView, ArchiveView, kind_signature, version_tag,
    name_field_len, safe_resource_name, validate_archive_resource_name, localized_views, copy_path,
};
use crate::order::{entry_views, sort_entries, sort_entry_vec};

verus! {

/// The size of the ERF header.
pub const HEADER_SIZE: u64 = 160;

/// The most resources an archive may announce.
pub const MAX_ARCHIVE_ENTRIES: u64 = 1_000_000;

/// The largest localized string table accepted (64 MiB).
pub const MAX_LOCALIZED_STRING_TABLE_SIZE: u64 = 67_108_864;

/// The facts that the header of an archive states.
#[derive(Clone, Copy, Debug)]
pub struct Header {
    pub kind: ArchiveKind,
    pub version: ArchiveVersion,
    pub language_count: u32,
    pub localized_size: u32,
    pub entry_count: u32,
    pub localized_offset: u32,
    pub key_offset: u32,
    pub resource_offset: u32,
    pub description_strref: u32,
}

/// `b` is the byte `c` without regard to ASCII case (`c` lower case).
pub open spec fn byte_is_ascii_ci(b: u8, c: u8) -> bool {
    b == c || (65 <= b && b <= 90 && b + 32 == c)
}

/// The file extension `ext` is `sav` in any ASCII case.
pub open spec fn is_sav_extension(ext: Option<Seq<u8>>) -> bool {
    ext matches Some(e) && e.len() == 3 && byte_is_ascii_ci(e[0], 0x73) && byte_is_ascii_ci(e[1], 0x61)
        && byte_is_ascii_ci(e[2], 0x76)
}

/// The archive kind that the signature at the start of `b` names; a
/// `MOD ` archive whose file extension is `sav` is a saved game.
pub open spec fn signature_kind(b: Seq<u8>, ext: Option<Seq<u8>>) -> Option<ArchiveKind> {
    let sig = b.subrange(0, 4);
    if sig == kind_signature(ArchiveKind::Hak) {
        Some(ArchiveKind::Hak)
    } else if sig == kind_signature(ArchiveKind::Erf) {
        Some(ArchiveKind::Erf)
    } else if sig == kind_signature(ArchiveKind::Mod) {
        if is_sav_extension(ext) {
            Some(ArchiveKind::Sav)
        } else {
            Some(ArchiveKind::Mod)
        }
    } else {
        None
    }
}

/// The version named by bytes 4..8 of `b`.
pub open spec fn header_version(b: Seq<u8>) -> Option<ArchiveVersion> {
    let tag = b.subrange(4, 8);
    if tag == version_tag(ArchiveVersion::V1_0) {
        Some(ArchiveVersion::V1_0)
    } else if tag == version_tag(ArchiveVersion::V1_1) {
        Some(ArchiveVersion::V1_1)
    } else {
        None
    }
}

/// The header of the archive whose file holds `b` (and has extension
/// `ext`), once every table it places is checked to lie inside the file.
pub open spec fn parse_header(b: Seq<u8>, ext: Option<Seq<u8>>) -> Result<Header, ArchiveError> {
    let len = b.len() as int;
    if len < HEADER_SIZE {
        Err(ArchiveError::TooSmall)
    } else {
        match signature_kind(b, ext) {
            None => Err(ArchiveError::UnsupportedSignature),
            Some(kind) => match header_version(b) {
                None => Err(ArchiveError::UnsupportedVersion),
                Some(version) => {
                    let language_count = le_u32_at(b, 8);
                    let localized_size = le_u32_at(b, 12);
                    let entry_count = le_u32_at(b, 16);
                    let localized_offset = le_u32_at(b, 20);
                    let key_offset = le_u32_at(b, 24);
                    let resource_offset = le_u32_at(b, 28);
                    let nl = name_field_len(version) as int;
                    if localized_size > MAX_LOCALIZED_STRING_TABLE_SIZE {
                        Err(ArchiveError::LocalizedTableTooLarge)
                    } else if entry_count > MAX_ARCHIVE_ENTRIES {
                        Err(ArchiveError::TooManyResources)
                    } else if localized_offset + localized_size > len {
                        Err(ArchiveError::OutsideFile(Region::LocalizedStrings))
                    } else if language_count * 8 > localized_size {
                        Err(ArchiveError::LocalizedCountExceedsTable)
                    } else if key_offset + entry_count * (nl + 8) > len {
                        Err(ArchiveError::OutsideFile(Region::KeyList))
                    } else if resource_offset + entry_count * 8 > len {
                        Err(ArchiveError::OutsideFile(Region::ResourceList))
                    } else {
                        Ok(
                            Header {
                                kind,
                                version,
                                language_count: language_count as u32,
                                localized_size: localized_size as u32,
                                entry_count: entry_count as u32,
                                localized_offset: localized_offset as u32,
                                key_offset: key_offset as u32,
                                resource_offset: resource_offset as u32,
                                description_strref: le_u32_at(b, 40) as u32,
                            },
                        )
                    }
                },
            },
        }
    }
}

/// The localized strings from the `index`-th on, the `index`-th record
/// starting at `pos`, of a table at `table_offset` of `table_size` bytes
/// holding `count` strings. Records are read one after the other; a string
/// may not run past the table's end, except in the one layout written by an
/// old `erf` tool: a single string whose length field holds the size of the
/// whole table, eight bytes too many.
pub open spec fn localized_from(
    b: Seq<u8>,
    count: int,
    table_offset: int,
    table_size: int,
    index: int,
    pos: int,
) -> Result<Seq<LocalizedView>, ArchiveError>
    decreases count - index,
{
    if index >= count {
        Ok(Seq::empty())
    } else if pos + 8 > b.len() {
        Err(ArchiveError::UnexpectedEnd)
    } else {
        let language_id = le_u32_at(b, pos);
        let declared = le_u32_at(b, pos + 4);
        let start = pos + 8;
        let end = table_offset + table_size;
        let remaining = if end > start { end - start } else { 0 };
        let legacy = declared > remaining && count == 1 && index == 0 && declared == table_size
            && start == table_offset + 8;
        if declared > remaining && !legacy {
            Err(ArchiveError::LocalizedStringExceedsTable)
        } else {
            let size = if legacy { remaining } else { declared };
            if start + size > b.len() {
                Err(ArchiveError::UnexpectedEnd)
            } else {
                match localized_from(b, count, table_offset, table_size, index + 1, start + size) {
                    Err(e) => Err(e),
                    Ok(rest) => Ok(
                        seq![LocalizedView { language_id: language_id as u32, bytes: b.subrange(start, start + size) }]
                            + rest,
                    ),
                }
            }
        }
    }
}

/// The localized strings of an archive with header `h`.
pub open spec fn parse_localized(b: Seq<u8>, h: Header) -> Result<Seq<LocalizedView>, ArchiveError> {
    localized_from(
        b,
        h.language_count as int,
        h.localized_offset as int,
        h.localized_size as int,
        0,
        h.localized_offset as int,
    )
}

/// How many bytes of `s` come before its first zero byte.
pub open spec fn nul_index(s: Seq<u8>) -> int
    decreases s.len(),
{
    if s.len() == 0 || s[0] == 0 {
        0
    } else {
        1 + nul_index(s.drop_first())
    }
}

/// The resource name stored in a name field: the bytes before the first
/// zero, decoded, without trailing white space.
pub open spec fn field_name(field: Seq<u8>) -> Seq<char> {
    trim_end(text_of(field.take(nul_index(field))))
}

/// A key as read: the resource's name and type.
pub struct KeyView {
    pub name: Seq<char>,
    pub type_id: u16,
}

/// The `i`-th key of a key list at `key_offset` whose name fields are `nl` bytes.
pub open spec fn key_at(b: Seq<u8>, key_offset: int, nl: int, i: int) -> Result<KeyView, ArchiveError> {
    let p = key_offset + i * (nl + 8);
    if p + nl + 8 > b.len() {
        Err(ArchiveError::UnexpectedEnd)
    } else {
        let name = field_name(b.subrange(p, p + nl));
        if name.len() == 0 {
            Err(ArchiveError::EmptyResourceName)
        } else if !safe_resource_name(name, nl) {
            Err(ArchiveError::UnsafeResourceName)
        } else {
            Ok(KeyView { name, type_id: le_u16_at(b, p + nl + 4) as u16 })
        }
    }
}

/// The first `n` keys, or the error met first.
pub open spec fn keys_upto(b: Seq<u8>, key_offset: int, nl: int, n: int) -> Result<Seq<KeyView>, ArchiveError>
    decreases n,
{
    if n <= 0 {
        Ok(Seq::empty())
    } else {
        match keys_upto(b, key_offset, nl, n - 1) {
            Err(e) => Err(e),
            Ok(ks) => match key_at(b, key_offset, nl, n - 1) {
                Err(e) => Err(e),
                Ok(k) => Ok(ks.push(k)),
            },
        }
    }
}

/// The keys of an archive with header `h`.
pub open spec fn parse_keys(b: Seq<u8>, h: Header) -> Result<Seq<KeyView>, ArchiveError> {
    keys_upto(b, h.key_offset as int, name_field_len(h.version) as int, h.entry_count as int)
}

/// Where a resource's data lies in the file.
#[derive(Clone, Copy, Debug)]
pub struct Span {
    pub offset: u64,
    pub size: u64,
}

/// The `i`-th entry of the resource list at `resource_offset`.
pub open spec fn span_at(b: Seq<u8>, resource_offset: int, i: int) -> Result<Span, ArchiveError> {
    let p = resource_offset + 8 * i;
    if p + 8 > b.len() {
        Err(ArchiveError::UnexpectedEnd)
    } else {
        let offset = le_u32_at(b, p);
        let size = le_u32_at(b, p + 4);
        if offset + size > b.len() {
            Err(ArchiveError::OutsideFile(Region::ResourceData))
        } else {
            Ok(Span { offset: offset as u64, size: size as u64 })
        }
    }
}

/// The first `n` resource list entries, or the error met first.
pub open spec fn spans_upto(b: Seq<u8>, resource_offset: int, n: int) -> Result<Seq<Span>, ArchiveError>
    decreases n,
{
    if n <= 0 {
        Ok(Seq::empty())
    } else {
        match spans_upto(b, resource_offset, n - 1) {
            Err(e) => Err(e),
            Ok(ss) => match span_at(b, resource_offset, n - 1) {
                Err(e) => Err(e),
                Ok(s) => Ok(ss.push(s)),
            },
        }
    }
}

/// The resource list of an archive with header `h`.
pub open spec fn parse_spans(b: Seq<u8>, h: Header) -> Result<Seq<Span>, ArchiveError> {
    spans_upto(b, h.resource_offset as int, h.entry_count as int)
}

/// The entries, in file order, that keys and spans describe for the archive at `path`.
pub open spec fn file_entries(keys: Seq<KeyView>, spans: Seq<Span>, path: PathBuf) -> Seq<EntryView> {
    Seq::new(
        keys.len(),
        |i: int| EntryView {
            name: keys[i].name,
            type_id: keys[i].type_id,
            data: DataView::ArchiveSlice { path, offset: spans[i].offset, size: spans[i].size },
        },
    )
}

/// The archive that the file at `path`, holding `b` and with extension
/// `ext`, contains; or the first thing wrong with it.
pub open spec fn parse_archive(b: Seq<u8>, ext: Option<Seq<u8>>, path: PathBuf) -> Result<ArchiveView, ArchiveError> {
    match parse_header(b, ext) {
        Err(e) => Err(e),
        Ok(h) => match parse_localized(b, h) {
            Err(e) => Err(e),
            Ok(localized) => match parse_keys(b, h) {
                Err(e) => Err(e),
                Ok(keys) => match parse_spans(b, h) {
                    Err(e) => Err(e),
                    Ok(spans) => Ok(
                        ArchiveView {
                            kind: h.kind,
                            version: h.version,
                            path: Some(path),
                            entries: sort_entries(file_entries(keys, spans, path)),
                            localized,
                            description_strref: h.description_strref,
                        },
                    ),
                },
            },
        },
    }
}


/// Whether the four bytes of `b` at `pos` are `tag`.
fn bytes_are(b: &[u8], pos: usize, tag: [u8; 4]) -> (r: bool)
    requires
        pos + 4 <= b@.len(),
    ensures
        r == (b@.subrange(pos as int, pos + 4) == tag@),
{
    let r = b[pos] == tag[0] && b[pos + 1] == tag[1] && b[pos + 2] == tag[2] && b[pos + 3] == tag[3];
    if r {
        assert(b@.subrange(pos as int, pos + 4) =~= tag@);
    } else {
        assert(b@.subrange(pos as int, pos + 4) != tag@) by {
            if b@.subrange(pos as int, pos + 4) == tag@ {
                assert(b@.subrange(pos as int, pos + 4)[0] == tag@[0]);
                assert(b@.subrange(pos as int, pos + 4)[1] == tag@[1]);
                assert(b@.subrange(pos as int, pos + 4)[2] == tag@[2]);
                assert(b@.subrange(pos as int, pos + 4)[3] == tag@[3]);
            }
        }
    }
    r
}

/// Whether `b` is the byte `c` (lower case) without regard to ASCII case.
fn byte_matches_ci(b: u8, c: u8) -> (r: bool)
    requires
        c < 224,
    ensures
        r == byte_is_ascii_ci(b, c),
{
    b == c || (65 <= b && b <= 90 && b + 32 == c)
}

/// Whether the extension `ext` is `sav` in any ASCII case.
fn is_sav(ext: Option<&[u8]>) -> (r: bool)
    ensures
        r == is_sav_extension(match ext { Some(e) => Some(e@), None => None }),
{
    match ext {
        Some(e) => e.len() == 3 && byte_matches_ci(e[0], 0x73) && byte_matches_ci(e[1], 0x61)
            && byte_matches_ci(e[2], 0x76),
        None => false,
    }
}

/// The view of an optional byte slice.
pub open spec fn opt_bytes(ext: Option<&[u8]>) -> Option<Seq<u8>> {
    match ext {
        Some(e) => Some(e@),
        None => None,
    }
}

/// Reads and checks the header of the archive held in `b`.
pub fn read_header(b: &[u8], ext: Option<&[u8]>) -> (r: Result<Header, ArchiveError>)
    ensures
        r == parse_header(b@, opt_bytes(ext)),
{
    let len = b.len();
    if len < 160 {
        return Err(ArchiveError::TooSmall);
    }
    let kind = if bytes_are(b, 0, ArchiveKind::Hak.signature()) {
        ArchiveKind::Hak
    } else if bytes_are(b, 0, ArchiveKind::Erf.signature()) {
        ArchiveKind::Erf
    } else if bytes_are(b, 0, ArchiveKind::Mod.signature()) {
        if is_sav(ext) {
            ArchiveKind::Sav
        } else {
            ArchiveKind::Mod
        }
    } else {
        return Err(ArchiveError::UnsupportedSignature);
    };
    let version = if bytes_are(b, 4, ArchiveVersion::V1_0.bytes()) {
        ArchiveVersion::V1_0
    } else if bytes_are(b, 4, ArchiveVersion::V1_1.bytes()) {
        ArchiveVersion::V1_1
    } else {
        return Err(ArchiveError::UnsupportedVersion);
    };
    let language_count = read_u32(b, 8).unwrap();
    let localized_size = read_u32(b, 12).unwrap();
    let entry_count = read_u32(b, 16).unwrap();
    if localized_size as u64 > MAX_LOCALIZED_STRING_TABLE_SIZE {
        return Err(ArchiveError::LocalizedTableTooLarge);
    }
    if entry_count as u64 > MAX_ARCHIVE_ENTRIES {
        return Err(ArchiveError::TooManyResources);
    }
    let localized_offset = read_u32(b, 20).unwrap();
    let key_offset = read_u32(b, 24).unwrap();
    let resource_offset = read_u32(b, 28).unwrap();
    let description_strref = read_u32(b, 40).unwrap();
    let file_len = len as u64;
    let nl = version.name_len() as u64;
    if localized_offset as u64 + localized_size as u64 > file_len {
        return Err(ArchiveError::OutsideFile(Region::LocalizedStrings));
    }
    if language_count as u64 * 8 > localized_size as u64 {
        return Err(ArchiveError::LocalizedCountExceedsTable);
    }
    assert(entry_count as u64 * (nl + 8) <= 40_000_000) by (nonlinear_arith)
        requires
            entry_count <= 1_000_000,
            nl <= 32,
    ;
    if key_offset as u64 + entry_count as u64 * (nl + 8) > file_len {
        return Err(ArchiveError::OutsideFile(Region::KeyList));
    }
    if resource_offset as u64 + entry_count as u64 * 8 > file_len {
        return Err(ArchiveError::OutsideFile(Region::ResourceList));
    }
    Ok(Header {
        kind,
        version,
        language_count,
        localized_size,
        entry_count,
        localized_offset,
        key_offset,
        resource_offset,
        description_strref,
    })
}


/// `r` with `acc` put in front of its value.
pub open spec fn prefixed<T>(acc: Seq<T>, r: Result<Seq<T>, ArchiveError>) -> Result<Seq<T>, ArchiveError> {
    match r {
        Ok(rest) => Ok(acc + rest),
        Err(e) => Err(e),
    }
}

/// A copy of `b[start..end]`.
fn copy_range(b: &[u8], start: usize, end: usize) -> (r: Vec<u8>)
    requires
        start <= end <= b@.len(),
    ensures
        r@ == b@.subrange(start as int, end as int),
{
    vstd::slice::slice_to_vec(vstd::slice::slice_subrange(b, start, end))
}

/// Reads the localized strings of an archive with header `h`.
pub fn read_localized(b: &[u8], h: Header) -> (r: Result<Vec<LocalizedString>, ArchiveError>)
    ensures
        match parse_localized(b@, h) {
            Ok(l) => r matches Ok(v) && localized_views(v@) == l,
            Err(e) => r == Err::<Vec<LocalizedString>, ArchiveError>(e),
        },
{
    let len = b.len() as u64;
    assert(len == b@.len());
    let count = h.language_count as u64;
    let table_offset = h.localized_offset as u64;
    let table_size = h.localized_size as u64;
    let end = table_offset + table_size;
    let mut index: u64 = 0;
    let mut pos: u64 = table_offset;
    let mut out: Vec<LocalizedString> = Vec::new();
    let ghost whole = parse_localized(b@, h);
    assert(whole == prefixed(localized_views(out@), localized_from(b@, count as int, table_offset as int, table_size as int, 0, pos as int))) by {
        assert(localized_views(out@) =~= Seq::<LocalizedView>::empty());
        if let Ok(rest) = whole {
            assert(Seq::<LocalizedView>::empty() + rest =~= rest);
        }
    }
    while index < count
        invariant
            len == b@.len(),
            b@.len() <= usize::MAX,
            count == h.language_count,
            table_offset == h.localized_offset,
            table_size == h.localized_size,
            end == table_offset + table_size,
            index <= count,
            pos <= table_offset || pos <= len,
            whole == parse_localized(b@, h),
            whole == prefixed(localized_views(out@), localized_from(b@, count as int, table_offset as int, table_size as int, index as int, pos as int)),
        decreases count - index,
    {
        let ghost acc = localized_views(out@);
        if len < 8 || pos > len - 8 {
            return Err(ArchiveError::UnexpectedEnd);
        }
        let p = pos as usize;
        assert(p == pos);
        let language_id = read_u32(b, p).unwrap();
        let declared = read_u32(b, p + 4).unwrap() as u64;
        let start = pos + 8;
        let remaining = if end > start { end - start } else { 0 };
        let legacy = declared > remaining && count == 1 && index == 0 && declared == table_size
            && start == table_offset + 8;
        if declared > remaining && !legacy {
            return Err(ArchiveError::LocalizedStringExceedsTable);
        }
        let size = if legacy { remaining } else { declared };
        if size > len - start {
            return Err(ArchiveError::UnexpectedEnd);
        }
        let bytes = copy_range(b, start as usize, (start + size) as usize);
        let item = LocalizedString { language_id, bytes };
        let ghost next = localized_from(b@, count as int, table_offset as int, table_size as int, index + 1, start + size);
        out.push(item);
        proof {
            assert(localized_views(out@) =~= acc.push(item@));
            if let Ok(rest) = next {
                assert(acc + (seq![item@] + rest) =~= acc.push(item@) + rest);
            }
        }
        pos = start + size;
        index = index + 1;
    }
    proof {
        if let Ok(l) = whole {
            assert(localized_views(out@) + Seq::<LocalizedView>::empty() =~= localized_views(out@));
        }
    }
    Ok(out)
}


/// A key as read from the file.
#[derive(Debug)]
pub struct Key {
    pub name: String,
    pub type_id: u16,
}

impl View for Key {
    type V = KeyView;

    open spec fn view(&self) -> KeyView {
        KeyView { name: self.name@, type_id: self.type_id }
    }
}

/// The views of a sequence of keys.
pub open spec fn key_views(s: Seq<Key>) -> Seq<KeyView> {
    s.map_values(|k: Key| k@)
}

/// Once the first `n` keys hold an error, so do the first `m` for any larger `m`.
proof fn lemma_keys_err_stable(b: Seq<u8>, key_offset: int, nl: int, n: int, m: int)
    requires
        0 <= n <= m,
        keys_upto(b, key_offset, nl, n) is Err,
    ensures
        keys_upto(b, key_offset, nl, m) == keys_upto(b, key_offset, nl, n),
    decreases m - n,
{
    if m > n {
        lemma_keys_err_stable(b, key_offset, nl, n, m - 1);
    }
}

/// Once the first `n` spans hold an error, so do the first `m` for any larger `m`.
proof fn lemma_spans_err_stable(b: Seq<u8>, resource_offset: int, n: int, m: int)
    requires
        0 <= n <= m,
        spans_upto(b, resource_offset, n) is Err,
    ensures
        spans_upto(b, resource_offset, m) == spans_upto(b, resource_offset, n),
    decreases m - n,
{
    if m > n {
        lemma_spans_err_stable(b, resource_offset, n, m - 1);
    }
}

/// The name held in a name field (see `field_name`).
fn read_field_name(field: &[u8]) -> (r: String)
    ensures
        r@ == field_name(field@),
{
    let mut n: usize = 0;
    assert(field@.skip(0) =~= field@);
    while n < field.len() && field[n] != 0
        invariant
            n <= field@.len(),
            nul_index(field@) == n + nul_index(field@.skip(n as int)),
        decreases field@.len() - n,
    {
        assert(field@.skip(n as int).drop_first() =~= field@.skip(n + 1));
        n = n + 1;
    }
    let decoded = decode_lossy(vstd::slice::slice_subrange(field, 0, n));
    assert(field@.subrange(0, n as int) =~= field@.take(nul_index(field@)));
    let trimmed = trim_end_chars(chars_of(decoded.as_str()).as_slice());
    string_from_chars(trimmed.as_slice())
}

/// Reads the keys of an archive with header `h`.
pub fn read_keys(b: &[u8], h: Header) -> (r: Result<Vec<Key>, ArchiveError>)
    ensures
        match parse_keys(b@, h) {
            Ok(ks) => r matches Ok(v) && key_views(v@) == ks,
            Err(e) => r == Err::<Vec<Key>, ArchiveError>(e),
        },
{
    let len = b.len() as u64;
    let count = h.entry_count as u64;
    let key_offset = h.key_offset as u64;
    let nl = h.version.name_len() as u64;
    let ghost ko = key_offset as int;
    let ghost nli = nl as int;
    let mut out: Vec<Key> = Vec::new();
    let mut i: u64 = 0;
    assert(key_views(out@) =~= Seq::<KeyView>::empty());
    while i < count
        invariant
            len == b@.len(),
            b@.len() <= usize::MAX,
            count == h.entry_count,
            key_offset == h.key_offset,
            ko == key_offset,
            nli == nl,
            nl == name_field_len(h.version),
            nl <= 32,
            i <= count,
            keys_upto(b@, ko, nli, i as int) == Ok::<Seq<KeyView>, ArchiveError>(key_views(out@)),
        decreases count - i,
    {
        assert(i * (nl + 8) <= 0x1_0000_0000 * 40) by (nonlinear_arith)
            requires
                i < 0x1_0000_0000,
                nl <= 32,
        ;
        let p = key_offset + i * (nl + 8);
        assert(p as int == ko + (i as int) * (nli + 8));
        if len < nl + 8 || p > len - (nl + 8) {
            proof {
                assert(p + nl + 8 > b@.len());
                assert(key_at(b@, ko, nli, i as int) == Err::<KeyView, ArchiveError>(ArchiveError::UnexpectedEnd));
                assert(keys_upto(b@, ko, nli, i + 1) == Err::<Seq<KeyView>, ArchiveError>(ArchiveError::UnexpectedEnd));
                lemma_keys_err_stable(b@, ko, nli, i + 1, count as int);
            }
            return Err(ArchiveError::UnexpectedEnd);
        }
        let pu = p as usize;
        let field_end = (p + nl) as usize;
        let name = read_field_name(vstd::slice::slice_subrange(b, pu, field_end));
        let type_id = read_u16(b, field_end + 4).unwrap();
        let name_chars = chars_of(name.as_str());
        if name_chars.len() == 0 {
            proof {
                lemma_keys_err_stable(b@, ko, nli, i + 1, count as int);
            }
            return Err(ArchiveError::EmptyResourceName);
        }
        match validate_archive_resource_name(name.as_str(), nl as usize) {
            Ok(()) => {},
            Err(e) => {
                proof {
                    lemma_keys_err_stable(b@, ko, nli, i + 1, count as int);
                }
                return Err(e);
            },
        }
        let key = Key { name, type_id };
        let ghost prev = key_views(out@);
        out.push(key);
        assert(key_views(out@) =~= prev.push(key@));
        i = i + 1;
    }
    Ok(out)
}

/// Reads the resource list of an archive with header `h`.
pub fn read_spans(b: &[u8], h: Header) -> (r: Result<Vec<Span>, ArchiveError>)
    ensures
        match parse_spans(b@, h) {
            Ok(ss) => r matches Ok(v) && v@ == ss,
            Err(e) => r == Err::<Vec<Span>, ArchiveError>(e),
        },
{
    let len = b.len() as u64;
    let count = h.entry_count as u64;
    let resource_offset = h.resource_offset as u64;
    let ghost ro = resource_offset as int;
    let mut out: Vec<Span> = Vec::new();
    let mut i: u64 = 0;
    assert(out@ =~= Seq::<Span>::empty());
    while i < count
        invariant
            len == b@.len(),
            b@.len() <= usize::MAX,
            count == h.entry_count,
            resource_offset == h.resource_offset,
            ro == resource_offset,
            i <= count,
            spans_upto(b@, ro, i as int) == Ok::<Seq<Span>, ArchiveError>(out@),
        decreases count - i,
    {
        let p = resource_offset + 8 * i;
        assert(p as int == ro + 8 * (i as int));
        if len < 8 || p > len - 8 {
            proof {
                lemma_spans_err_stable(b@, ro, i + 1, count as int);
            }
            return Err(ArchiveError::UnexpectedEnd);
        }
        let pu = p as usize;
        let offset = read_u32(b, pu).unwrap() as u64;
        let size = read_u32(b, pu + 4).unwrap() as u64;
        if offset + size > len {
            proof {
                lemma_spans_err_stable(b@, ro, i + 1, count as int);
            }
            return Err(ArchiveError::OutsideFile(Region::ResourceData));
        }
        out.push(Span { offset, size });
        i = i + 1;
    }
    Ok(out)
}


/// The entries described by `keys` and `spans`, in file order.
fn build_entries(keys: &Vec<Key>, spans: &Vec<Span>, path: &PathBuf) -> (r: Vec<Entry>)
    requires
        keys@.len() == spans@.len(),
    ensures
        entry_views(r@) == file_entries(key_views(keys@), spans@, *path),
{
    let ghost kv = key_views(keys@);
    let mut out: Vec<Entry> = Vec::new();
    let mut i: usize = 0;
    assert(entry_views(out@) =~= file_entries(kv, spans@, *path).take(0));
    while i < keys.len()
        invariant
            kv == key_views(keys@),
            kv.len() == spans@.len(),
            i <= kv.len(),
            entry_views(out@) == file_entries(kv, spans@, *path).take(i as int),
        decreases kv.len() - i,
    {
        assert(kv[i as int] == keys@[i as int]@);
        let span = spans[i];
        let entry = Entry {
            name: keys[i].name.clone(),
            type_id: keys[i].type_id,
            data: EntryData::ArchiveSlice { path: copy_path(path), offset: span.offset, size: span.size },
        };
        let ghost prev = entry_views(out@);
        assert(entry@ == file_entries(kv, spans@, *path)[i as int]);
        out.push(entry);
        assert(entry_views(out@) =~= prev.push(entry@));
        assert(file_entries(kv, spans@, *path).take(i + 1) =~= file_entries(kv, spans@, *path).take(i as int).push(file_entries(kv, spans@, *path)[i as int]));
        i = i + 1;
    }
    assert(file_entries(kv, spans@, *path).take(kv.len() as int) =~= file_entries(kv, spans@, *path));
    out
}

impl Archive {
    /// Reads the archive whose file, at `path` and with file extension
    /// `extension`, holds `bytes`. Entries refer to their data in that file.
    pub fn from_bytes(bytes: &[u8], path: PathBuf, extension: Option<&[u8]>) -> (r: Result<Archive, ArchiveError>)
        ensures
            match parse_archive(bytes@, opt_bytes(extension), path) {
                Ok(a) => r matches Ok(x) && x@ == a,
                Err(e) => r == Err::<Archive, ArchiveError>(e),
            },
    {
        let h = match read_header(bytes, extension) {
            Ok(h) => h,
            Err(e) => return Err(e),
        };
        let localized = match read_localized(bytes, h) {
            Ok(l) => l,
            Err(e) => return Err(e),
        };
        let keys = match read_keys(bytes, h) {
            Ok(k) => k,
            Err(e) => return Err(e),
        };
        let spans = match read_spans(bytes, h) {
            Ok(s) => s,
            Err(e) => return Err(e),
        };
        proof {
            lemma_keys_len(bytes@, h.key_offset as int, name_field_len(h.version) as int, h.entry_count as int);
            lemma_spans_len(bytes@, h.resource_offset as int, h.entry_count as int);
        }
        let entries = sort_entry_vec(build_entries(&keys, &spans, &path));
        Ok(Archive {
            kind: h.kind,
            version: h.version,
            path: Some(path),
            entries,
            localized,
            description_strref: h.description_strref,
        })
    }
}

/// A successful read of the first `n` keys gives `n` keys.
proof fn lemma_keys_len(b: Seq<u8>, key_offset: int, nl: int, n: int)
    requires
        n >= 0,
    ensures
        keys_upto(b, key_offset, nl, n) matches Ok(ks) ==> ks.len() == n,
    decreases n,
{
    if n > 0 {
        lemma_keys_len(b, key_offset, nl, n - 1);
    }
}

/// A successful read of the first `n` spans gives `n` spans.
proof fn lemma_spans_len(b: Seq<u8>, resource_offset: int, n: int)
    requires
        n >= 0,
    ensures
        spans_upto(b, resource_offset, n) matches Ok(ss) ==> ss.len() == n,
    decreases n,
{
    if n > 0 {
        lemma_spans_len(b, resource_offset, n - 1);
    }
}

} // verus!
