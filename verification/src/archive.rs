//! The in-memory model of an ERF archive: its kind, version, localized
//! description strings and resource entries.

use vstd::prelude::*;
use std::path::PathBuf;
use crate::text::{trim_end, is_white_space, utf8_len, utf8_len_at_most, text_of, decode_lossy, chars_of, is_control, is_control_char, string_from_chars, ascii_lowercase, lowercase_chars, eq_ignore_ascii_case, chars_eq_ignore_ascii_case};
use crate::order::{entry_views, sort_entries, sort_entry_vec, is_sorted, lemma_sort_entries};
use crate::resource_types::{extension_name, extension_for, type_of_extension, type_for, is_plain_char, lemma_extension_is_plain};
use vstd::utf8::{encode_utf8, encode_utf8_valid_utf8, encode_utf8_decode_utf8};

verus! {

broadcast use vstd::string::group_string_axioms;

#[verifier::external_type_specification]
#[verifier::external_body]
pub struct ExPathBuf(PathBuf);

/// A copy of `path`. Calls `PathBuf::clone`, trusted to give an equal path.
#[verifier::external_body]
pub fn copy_path(path: &PathBuf) -> (r: PathBuf)
    ensures
        r == *path,
{
    path.clone()
}

/// The ERF format revision: V1.0 (Neverwinter Nights and its Enhanced
/// Edition) stores 16-byte resource names, V1.1 (NWN2) 32-byte names.
#[derive(Clone, Copy, Debug, PartialEq, Eq, Structural)]
pub enum ArchiveVersion {
    V1_0,
    V1_1,
}

/// The four version bytes stored in the header.
pub open spec fn version_tag(v: ArchiveVersion) -> Seq<u8> {
    match v {
        ArchiveVersion::V1_0 => seq![0x56u8, 0x31u8, 0x2eu8, 0x30u8],
        ArchiveVersion::V1_1 => seq![0x56u8, 0x31u8, 0x2eu8, 0x31u8],
    }
}

/// The size of the name field of a key in archives of version `v`.
pub open spec fn name_field_len(v: ArchiveVersion) -> nat {
    match v {
        ArchiveVersion::V1_0 => 16,
        ArchiveVersion::V1_1 => 32,
    }
}

impl ArchiveVersion {
    /// A human-readable name of the version.
    pub fn label(self) -> (r: &'static str)
        ensures
            r@ == (match self {
                ArchiveVersion::V1_0 => "V1.0 (NWN/EE)"@,
                ArchiveVersion::V1_1 => "V1.1 (NWN2)"@,
            }),
    {
        match self {
            ArchiveVersion::V1_0 => "V1.0 (NWN/EE)",
            ArchiveVersion::V1_1 => "V1.1 (NWN2)",
        }
    }

    /// The four version bytes of the header.
    pub fn bytes(self) -> (r: [u8; 4])
        ensures
            r@ == version_tag(self),
    {
        let r = match self {
            ArchiveVersion::V1_0 => [0x56u8, 0x31u8, 0x2eu8, 0x30u8],
            ArchiveVersion::V1_1 => [0x56u8, 0x31u8, 0x2eu8, 0x31u8],
        };
        assert(r@ =~= version_tag(self));
        r
    }

    /// The size of a resource name field.
    pub fn name_len(self) -> (r: usize)
        ensures
            r == name_field_len(self),
    {
        match self {
            ArchiveVersion::V1_0 => 16,
            ArchiveVersion::V1_1 => 32,
        }
    }
}

/// What an archive is for. Saved games share the `MOD ` signature with
/// modules and are told apart by their `.sav` file extension.
#[derive(Clone, Copy, Debug, PartialEq, Eq, Structural)]
pub enum ArchiveKind {
    Hak,
    Erf,
    Mod,
    Sav,
}

/// The four signature bytes written for an archive of kind `k`.
pub open spec fn kind_signature(k: ArchiveKind) -> Seq<u8> {
    match k {
        ArchiveKind::Hak => seq![0x48u8, 0x41u8, 0x4bu8, 0x20u8],
        ArchiveKind::Erf => seq![0x45u8, 0x52u8, 0x46u8, 0x20u8],
        ArchiveKind::Mod | ArchiveKind::Sav => seq![0x4du8, 0x4fu8, 0x44u8, 0x20u8],
    }
}

/// The file extension of archives of kind `k`.
pub open spec fn kind_extension(k: ArchiveKind) -> Seq<char> {
    match k {
        ArchiveKind::Hak => "hak"@,
        ArchiveKind::Erf => "erf"@,
        ArchiveKind::Mod => "mod"@,
        ArchiveKind::Sav => "sav"@,
    }
}

impl ArchiveKind {
    /// The four signature bytes of the header (`HAK `, `ERF ` or `MOD `).
    pub fn signature(self) -> (r: [u8; 4])
        ensures
            r@ == kind_signature(self),
    {
        let r = match self {
            ArchiveKind::Hak => [0x48u8, 0x41u8, 0x4bu8, 0x20u8],
            ArchiveKind::Erf => [0x45u8, 0x52u8, 0x46u8, 0x20u8],
            ArchiveKind::Mod | ArchiveKind::Sav => [0x4du8, 0x4fu8, 0x44u8, 0x20u8],
        };
        assert(r@ =~= kind_signature(self));
        r
    }

    /// The usual file extension of such archives.
    pub fn extension(self) -> (r: &'static str)
        ensures
            r@ == kind_extension(self),
    {
        match self {
            ArchiveKind::Hak => "hak",
            ArchiveKind::Erf => "erf",
            ArchiveKind::Mod => "mod",
            ArchiveKind::Sav => "sav",
        }
    }
}


/// The part of a file that an archive header places out of bounds.
#[derive(Clone, Copy, Debug, PartialEq, Eq, Structural)]
pub enum Region {
    LocalizedStrings,
    KeyList,
    ResourceList,
    ResourceData,
}

/// Why an archive could not be read, changed or written.
#[derive(Clone, Copy, Debug, PartialEq, Eq, Structural)]
pub enum ArchiveError {
    /// The file is shorter than an ERF header.
    TooSmall,
    /// The signature is not `HAK `, `ERF ` or `MOD `.
    UnsupportedSignature,
    /// The version is neither `V1.0` nor `V1.1`.
    UnsupportedVersion,
    /// The localized string table is larger than 64 MiB.
    LocalizedTableTooLarge,
    /// The header announces more than a million resources.
    TooManyResources,
    /// A table or a resource lies (partly) beyond the end of the file.
    OutsideFile(Region),
    /// The localized strings cannot all fit in their table.
    LocalizedCountExceedsTable,
    /// A localized string runs past the end of its table.
    LocalizedStringExceedsTable,
    /// The file ended in the middle of a record.
    UnexpectedEnd,
    /// A key has an empty resource name.
    EmptyResourceName,
    /// A resource name is too long or holds a path separator, a colon or a control character.
    UnsafeResourceName,
    /// The resource to add is not a regular file.
    NotRegularFile,
    /// The resource's file name is not valid UTF-8.
    FileNameNotUtf8,
    /// The resource's file name has no extension.
    NoExtension,
    /// The resource's extension names no known resource type.
    UnknownExtension,
    /// The resource name is not 1 to `max` ASCII letters, digits or underscores.
    InvalidName(usize),
    /// More resources than an ERF header can count.
    TooManyResourcesToWrite,
    /// The archive's layout does not fit in 64-bit offsets.
    TooLarge,
    /// The archive's tables would lie beyond 4 GiB.
    OffsetsExceed4GiB,
    /// The name of the entry at this index is longer than the name field
    /// (of this many bytes) of the archive's version.
    NameTooLong(usize, usize),
    /// Resource data would start beyond 4 GiB.
    ArchiveExceeds4GiB,
    /// A single resource is 4 GiB or larger.
    ResourceExceeds4GiB,
    /// No resource has the given index.
    IndexOutOfRange,
}

/// The message that describes `e`, without the details that it carries.
pub open spec fn error_message(e: ArchiveError) -> Seq<char> {
    match e {
        ArchiveError::TooSmall => "file is too small to be an ERF archive"@,
        ArchiveError::UnsupportedSignature => "unsupported archive signature"@,
        ArchiveError::UnsupportedVersion => "unsupported ERF version"@,
        ArchiveError::LocalizedTableTooLarge => "localized string table is too large"@,
        ArchiveError::TooManyResources => "archive contains more than 1000000 resources"@,
        ArchiveError::OutsideFile(Region::LocalizedStrings) => "localized strings lies outside the file"@,
        ArchiveError::OutsideFile(Region::KeyList) => "key list lies outside the file"@,
        ArchiveError::OutsideFile(Region::ResourceList) => "resource list lies outside the file"@,
        ArchiveError::OutsideFile(Region::ResourceData) => "resource data lies outside the file"@,
        ArchiveError::LocalizedCountExceedsTable => "localized string count exceeds the localized string table"@,
        ArchiveError::LocalizedStringExceedsTable => "localized string exceeds its table"@,
        ArchiveError::UnexpectedEnd => "failed to fill whole buffer"@,
        ArchiveError::EmptyResourceName => "archive contains an empty resource name"@,
        ArchiveError::UnsafeResourceName => "archive contains an unsafe resource name with path or control characters"@,
        ArchiveError::NotRegularFile => "resource is not a regular file"@,
        ArchiveError::FileNameNotUtf8 => "resource filename is not valid UTF-8"@,
        ArchiveError::NoExtension => "resource filename has no extension"@,
        ArchiveError::UnknownExtension => "unknown NWN resource extension"@,
        ArchiveError::InvalidName(_) => "resource name must be ASCII letters, digits, or underscores"@,
        ArchiveError::TooManyResourcesToWrite => "too many resources"@,
        ArchiveError::TooLarge => "archive is too large"@,
        ArchiveError::OffsetsExceed4GiB => "ERF V1.x offsets cannot exceed 4 GiB"@,
        ArchiveError::NameTooLong(_, _) => "resource name exceeds the name field"@,
        ArchiveError::ArchiveExceeds4GiB => "ERF V1.x archive exceeds 4 GiB"@,
        ArchiveError::ResourceExceeds4GiB => "a resource exceeds 4 GiB"@,
        ArchiveError::IndexOutOfRange => "resource index is out of range"@,
    }
}

impl ArchiveError {
    /// The message that describes this error, without the details that it carries.
    pub fn message(&self) -> (r: &'static str)
        ensures
            r@ == error_message(*self),
    {
        match self {
            ArchiveError::TooSmall => "file is too small to be an ERF archive",
            ArchiveError::UnsupportedSignature => "unsupported archive signature",
            ArchiveError::UnsupportedVersion => "unsupported ERF version",
            ArchiveError::LocalizedTableTooLarge => "localized string table is too large",
            ArchiveError::TooManyResources => "archive contains more than 1000000 resources",
            ArchiveError::OutsideFile(Region::LocalizedStrings) => "localized strings lies outside the file",
            ArchiveError::OutsideFile(Region::KeyList) => "key list lies outside the file",
            ArchiveError::OutsideFile(Region::ResourceList) => "resource list lies outside the file",
            ArchiveError::OutsideFile(Region::ResourceData) => "resource data lies outside the file",
            ArchiveError::LocalizedCountExceedsTable => "localized string count exceeds the localized string table",
            ArchiveError::LocalizedStringExceedsTable => "localized string exceeds its table",
            ArchiveError::UnexpectedEnd => "failed to fill whole buffer",
            ArchiveError::EmptyResourceName => "archive contains an empty resource name",
            ArchiveError::UnsafeResourceName => "archive contains an unsafe resource name with path or control characters",
            ArchiveError::NotRegularFile => "resource is not a regular file",
            ArchiveError::FileNameNotUtf8 => "resource filename is not valid UTF-8",
            ArchiveError::NoExtension => "resource filename has no extension",
            ArchiveError::UnknownExtension => "unknown NWN resource extension",
            ArchiveError::InvalidName(_) => "resource name must be ASCII letters, digits, or underscores",
            ArchiveError::TooManyResourcesToWrite => "too many resources",
            ArchiveError::TooLarge => "archive is too large",
            ArchiveError::OffsetsExceed4GiB => "ERF V1.x offsets cannot exceed 4 GiB",
            ArchiveError::NameTooLong(_, _) => "resource name exceeds the name field",
            ArchiveError::ArchiveExceeds4GiB => "ERF V1.x archive exceeds 4 GiB",
            ArchiveError::ResourceExceeds4GiB => "a resource exceeds 4 GiB",
            ArchiveError::IndexOutOfRange => "resource index is out of range",
        }
    }
}

/// Where the bytes of a resource come from.
#[derive(Debug)]
pub enum EntryData {
    /// A stretch of an archive file on disk.
    ArchiveSlice { path: PathBuf, offset: u64, size: u64 },
    /// A whole file on disk, added by the user.
    ExternalFile(PathBuf),
    /// Bytes held in memory.
    Memory(Vec<u8>),
}

/// One resource of an archive: its name, type and data.
#[derive(Debug)]
pub struct Entry {
    pub name: String,
    pub type_id: u16,
    pub data: EntryData,
}

/// The abstract value of an `EntryData`.
pub enum DataView {
    ArchiveSlice { path: PathBuf, offset: u64, size: u64 },
    ExternalFile(PathBuf),
    Memory(Seq<u8>),
}

/// The abstract value of an `Entry`.
pub struct EntryView {
    pub name: Seq<char>,
    pub type_id: u16,
    pub data: DataView,
}

impl View for EntryData {
    type V = DataView;

    open spec fn view(&self) -> DataView {
        match self {
            EntryData::ArchiveSlice { path, offset, size } => DataView::ArchiveSlice {
                path: *path,
                offset: *offset,
                size: *size,
            },
            EntryData::ExternalFile(p) => DataView::ExternalFile(*p),
            EntryData::Memory(v) => DataView::Memory(v@),
        }
    }
}

impl View for Entry {
    type V = EntryView;

    open spec fn view(&self) -> EntryView {
        EntryView { name: self.name@, type_id: self.type_id, data: self.data@ }
    }
}

impl Clone for EntryData {
    fn clone(&self) -> (r: Self)
        ensures
            r@ == self@,
    {
        match self {
            EntryData::ArchiveSlice { path, offset, size } => EntryData::ArchiveSlice {
                path: copy_path(path),
                offset: *offset,
                size: *size,
            },
            EntryData::ExternalFile(p) => EntryData::ExternalFile(copy_path(p)),
            EntryData::Memory(v) => EntryData::Memory(v.clone()),
        }
    }
}

impl Clone for Entry {
    fn clone(&self) -> (r: Self)
        ensures
            r@ == self@,
    {
        Entry { name: self.name.clone(), type_id: self.type_id, data: self.data.clone() }
    }
}

/// `name` is acceptable as the name of a resource extracted to disk: not
/// empty, at most `max` bytes of UTF-8, and free of `/`, `\`, `:` and
/// control characters.
pub open spec fn safe_resource_name(name: Seq<char>, max: int) -> bool {
    &&& name.len() > 0
    &&& utf8_len(name) <= max
    &&& forall|i: int| 0 <= i < name.len() ==> !is_control(#[trigger] name[i]) && name[i] != '/'
        && name[i] != '\\' && name[i] != ':'
}

/// Checks that `name` is a safe resource name of at most `max` bytes.
pub fn validate_archive_resource_name(name: &str, max: usize) -> (r: Result<(), ArchiveError>)
    ensures
        r is Ok <==> safe_resource_name(name@, max as int),
        r matches Err(e) ==> e == ArchiveError::UnsafeResourceName,
{
    let chars = chars_of(name);
    if chars.len() == 0 || !utf8_len_at_most(chars.as_slice(), max) {
        return Err(ArchiveError::UnsafeResourceName);
    }
    let mut i: usize = 0;
    while i < chars.len()
        invariant
            chars@ == name@,
            i <= chars@.len(),
            forall|j: int| 0 <= j < i ==> !is_control(#[trigger] chars@[j]) && chars@[j] != '/'
                && chars@[j] != '\\' && chars@[j] != ':',
        decreases chars@.len() - i,
    {
        let c = chars[i];
        if is_control_char(c) || c == '/' || c == '\\' || c == ':' {
            return Err(ArchiveError::UnsafeResourceName);
        }
        i = i + 1;
    }
    Ok(())
}

/// The file name under which `e` is extracted: its name, a dot and its type's extension.
pub open spec fn entry_filename(e: EntryView) -> Seq<char> {
    e.name + seq!['.'] + extension_name(e.type_id)
}

/// `s` names a file directly inside a directory: it is not empty, not `.`
/// or `..`, and holds no `/`, `\`, `:` or control character.
pub open spec fn is_single_component(s: Seq<char>) -> bool {
    &&& s.len() > 0
    &&& s != seq!['.'] && s != seq!['.', '.']
    &&& forall|i: int| 0 <= i < s.len() ==> !is_control(#[trigger] s[i]) && s[i] != '/' && s[i]
        != '\\' && s[i] != ':'
}

/// A resource whose name is safe is extracted under a file name that is a
/// single path component, so extracting it cannot leave the target directory.
pub proof fn lemma_safe_filename_stays_inside(e: EntryView, max: int)
    requires
        safe_resource_name(e.name, max),
    ensures
        is_single_component(entry_filename(e)),
{
    let ext = extension_name(e.type_id);
    lemma_extension_is_plain(e.type_id);
    let f = entry_filename(e);
    let n = e.name.len();
    assert forall|i: int| 0 <= i < f.len() implies !is_control(#[trigger] f[i]) && f[i] != '/' && f[i]
        != '\\' && f[i] != ':' by {
        if i < n {
            assert(f[i] == e.name[i]);
        } else if i == n {
            assert(f[i] == '.');
        } else {
            assert(f[i] == ext[i - n - 1]);
            assert(is_plain_char(ext[i - n - 1]));
        }
    }
    assert(f.len() >= 3);
    assert(f[f.len() - 1] == ext[ext.len() - 1]);
    assert(is_plain_char(ext[ext.len() - 1]));
    assert(f != seq!['.']) by {
        if f == seq!['.'] {
            assert(f.len() == 1);
        }
    }
    assert(f != seq!['.', '.']) by {
        if f == seq!['.', '.'] {
            assert(f.len() == 2);
        }
    }
}

impl Entry {
    /// The extension of the resource's type.
    pub fn extension(&self) -> (r: String)
        ensures
            r@ == extension_name(self.type_id),
    {
        extension_for(self.type_id).to_owned()
    }

    /// Whether the resource was added since the archive was opened.
    pub fn is_new(&self) -> (r: bool)
        ensures
            r == !(self.data is ArchiveSlice),
    {
        match self.data {
            EntryData::ArchiveSlice { .. } => false,
            _ => true,
        }
    }

    /// The resource's file name: its name, a dot and its extension.
    pub fn filename(&self) -> (r: String)
        ensures
            r@ == entry_filename(self@),
    {
        let mut chars = chars_of(self.name.as_str());
        chars.push('.');
        let ext = chars_of(extension_for(self.type_id));
        let mut i: usize = 0;
        let ghost start = chars@;
        while i < ext.len()
            invariant
                i <= ext@.len(),
                chars@ == start + ext@.take(i as int),
            decreases ext@.len() - i,
        {
            chars.push(ext[i]);
            i = i + 1;
            assert(chars@ =~= start + ext@.take(i as int));
        }
        assert(ext@.take(ext@.len() as int) =~= ext@);
        string_from_chars(chars.as_slice())
    }

    /// The file name, once the name is checked to be safe to extract.
    pub fn safe_filename(&self) -> (r: Result<String, ArchiveError>)
        ensures
            r is Ok <==> safe_resource_name(self.name@, usize::MAX as int),
            r matches Ok(s) ==> s@ == entry_filename(self@) && is_single_component(s@),
            r matches Err(e) ==> e == ArchiveError::UnsafeResourceName,
    {
        match validate_archive_resource_name(self.name.as_str(), usize::MAX) {
            Ok(()) => {
                proof {
                    lemma_safe_filename_stays_inside(self@, usize::MAX as int);
                }
                Ok(self.filename())
            },
            Err(e) => Err(e),
        }
    }
}


/// A localized description string of an archive.
#[derive(Clone, Debug)]
pub struct LocalizedString {
    pub language_id: u32,
    pub bytes: Vec<u8>,
}

/// The abstract value of a `LocalizedString`.
pub struct LocalizedView {
    pub language_id: u32,
    pub bytes: Seq<u8>,
}

impl View for LocalizedString {
    type V = LocalizedView;

    open spec fn view(&self) -> LocalizedView {
        LocalizedView { language_id: self.language_id, bytes: self.bytes@ }
    }
}

/// An ERF archive: its header facts, localized descriptions and resources.
#[derive(Clone, Debug)]
pub struct Archive {
    pub kind: ArchiveKind,
    pub version: ArchiveVersion,
    pub path: Option<PathBuf>,
    pub entries: Vec<Entry>,
    pub localized: Vec<LocalizedString>,
    pub description_strref: u32,
}

/// The abstract value of an `Archive`.
pub struct ArchiveView {
    pub kind: ArchiveKind,
    pub version: ArchiveVersion,
    pub path: Option<PathBuf>,
    pub entries: Seq<EntryView>,
    pub localized: Seq<LocalizedView>,
    pub description_strref: u32,
}

/// The views of a sequence of localized strings.
pub open spec fn localized_views(s: Seq<LocalizedString>) -> Seq<LocalizedView> {
    s.map_values(|l: LocalizedString| l@)
}

impl View for Archive {
    type V = ArchiveView;

    open spec fn view(&self) -> ArchiveView {
        ArchiveView {
            kind: self.kind,
            version: self.version,
            path: self.path,
            entries: entry_views(self.entries@),
            localized: localized_views(self.localized@),
            description_strref: self.description_strref,
        }
    }
}

/// The description that a new HAK archive carries.
pub open spec fn hak_description() -> Seq<char> {
    "Aurora Hak Explorer\nCreated with AHE"@
}

/// The bytes of the description of a new archive of kind `kind`.
pub open spec fn default_description(kind: ArchiveKind) -> Seq<u8> {
    if kind == ArchiveKind::Hak {
        encode_utf8(hak_description())
    } else {
        Seq::empty()
    }
}

/// The description shown for an archive: the text of its first localized string.
pub open spec fn description_of(a: ArchiveView) -> Seq<char> {
    if a.localized.len() > 0 {
        text_of(a.localized[0].bytes)
    } else {
        Seq::empty()
    }
}

/// The localized strings after the description is set to `text`.
pub open spec fn with_description(l: Seq<LocalizedView>, text: Seq<char>) -> Seq<LocalizedView> {
    if l.len() > 0 {
        l.update(0, LocalizedView { language_id: l[0].language_id, bytes: encode_utf8(text) })
    } else {
        seq![LocalizedView { language_id: 0, bytes: encode_utf8(text) }]
    }
}

/// `c` is an ASCII letter, an ASCII digit or an underscore.
pub open spec fn is_name_char(c: char) -> bool {
    ('a' <= c && c <= 'z') || ('A' <= c && c <= 'Z') || ('0' <= c && c <= '9') || c == '_'
}

/// The resource name made of the file stem `raw`: lowered, and accepted
/// only when it is 1 to `max` bytes of ASCII letters, digits and underscores.
pub open spec fn sanitized_name(raw: Seq<char>, max: int) -> Option<Seq<char>> {
    let lowered = ascii_lowercase(raw);
    if lowered.len() > 0 && utf8_len(lowered) <= max && (forall|i: int|
        0 <= i < lowered.len() ==> is_name_char(#[trigger] lowered[i])) {
        Some(lowered)
    } else {
        None
    }
}

/// A name made by `sanitize_name` is safe to extract and reads back from a
/// name field unchanged: it passes `validate_archive_resource_name` and has
/// no trailing white space.
pub proof fn lemma_sanitized_name_is_safe(raw: Seq<char>, max: int)
    requires
        sanitized_name(raw, max) is Some,
    ensures
        sanitized_name(raw, max) matches Some(n) && safe_resource_name(n, max) && trim_end(n) == n,
{
    let n = ascii_lowercase(raw);
    assert forall|i: int| 0 <= i < n.len() implies !is_control(#[trigger] n[i]) && n[i] != '/' && n[i] != '\\' && n[i] != ':' by {
        assert(is_name_char(n[i]));
    }
    assert(is_name_char(n.last()));
    assert(!is_white_space(n.last()));
}

/// Setting the description and reading it back gives the text that was set.
pub proof fn lemma_description_round_trip(a: ArchiveView, text: Seq<char>)
    ensures
        description_of(ArchiveView { localized: with_description(a.localized, text), ..a }) == text,
{
    encode_utf8_valid_utf8(text);
    encode_utf8_decode_utf8(text);
}

/// Lowers `raw` and checks it as a resource name of at most `max` bytes.
pub fn sanitize_name(raw: &str, max: usize) -> (r: Result<String, ArchiveError>)
    ensures
        match sanitized_name(raw@, max as int) {
            Some(n) => r matches Ok(s) && s@ == n,
            None => r == Err::<String, ArchiveError>(ArchiveError::InvalidName(max)),
        },
{
    let lowered = lowercase_chars(chars_of(raw).as_slice());
    if lowered.len() == 0 || !utf8_len_at_most(lowered.as_slice(), max) {
        return Err(ArchiveError::InvalidName(max));
    }
    let mut i: usize = 0;
    while i < lowered.len()
        invariant
            i <= lowered@.len(),
            lowered@ == ascii_lowercase(raw@),
            forall|j: int| 0 <= j < i ==> is_name_char(#[trigger] lowered@[j]),
        decreases lowered@.len() - i,
    {
        let c = lowered[i];
        if !(('a' <= c && c <= 'z') || ('A' <= c && c <= 'Z') || ('0' <= c && c <= '9') || c
            == '_') {
            assert(!is_name_char(lowered@[i as int]));
            assert(sanitized_name(raw@, max as int) is None);
            return Err(ArchiveError::InvalidName(max));
        }
        i = i + 1;
    }
    Ok(string_from_chars(lowered.as_slice()))
}

/// The index of the last `.` in `s`, if any.
pub open spec fn last_dot(s: Seq<char>) -> Option<int>
    decreases s.len(),
{
    if s.len() == 0 {
        None
    } else if s.last() == '.' {
        Some(s.len() - 1)
    } else {
        last_dot(s.drop_last())
    }
}

/// The entry that a file becomes when it is added to an archive of
/// version `version`, or why it cannot be added. `file_name` is the file's
/// name when it is valid UTF-8.
pub open spec fn resource_entry(
    version: ArchiveVersion,
    path: PathBuf,
    is_file: bool,
    file_name: Option<Seq<char>>,
) -> Result<EntryView, ArchiveError> {
    if !is_file {
        Err(ArchiveError::NotRegularFile)
    } else {
        match file_name {
            None => Err(ArchiveError::FileNameNotUtf8),
            Some(f) => match last_dot(f) {
                None => Err(ArchiveError::NoExtension),
                Some(d) => match type_of_extension(f.skip(d + 1)) {
                    None => Err(ArchiveError::UnknownExtension),
                    Some(t) => match sanitized_name(f.take(d), name_field_len(version) as int) {
                        None => Err(ArchiveError::InvalidName(name_field_len(version) as usize)),
                        Some(n) => Ok(EntryView { name: n, type_id: t, data: DataView::ExternalFile(path) }),
                    },
                },
            },
        }
    }
}

/// `a` and `b` are the same resource: equal names ignoring ASCII case, and equal types.
pub open spec fn same_resource(a: EntryView, b: EntryView) -> bool {
    eq_ignore_ascii_case(a.name, b.name) && a.type_id == b.type_id
}

/// The index of the first of the first `n` entries of `s` that is the same resource as `x`.
pub open spec fn find_in_prefix(s: Seq<EntryView>, x: EntryView, n: int) -> Option<int>
    decreases n,
{
    if n <= 0 {
        None
    } else {
        match find_in_prefix(s, x, n - 1) {
            Some(i) => Some(i),
            None => if same_resource(s[n - 1], x) {
                Some(n - 1)
            } else {
                None
            },
        }
    }
}

/// The index of the first entry of `s` that is the same resource as `x`.
pub open spec fn find_resource(s: Seq<EntryView>, x: EntryView) -> Option<int> {
    find_in_prefix(s, x, s.len() as int)
}

/// A match among the first `n` entries stays the first match among more.
proof fn lemma_find_in_prefix_stable(s: Seq<EntryView>, x: EntryView, n: int, m: int)
    requires
        0 <= n <= m,
        find_in_prefix(s, x, n) is Some,
    ensures
        find_in_prefix(s, x, m) == find_in_prefix(s, x, n),
    decreases m - n,
{
    if m > n {
        lemma_find_in_prefix_stable(s, x, n, m - 1);
    }
}

/// The first match among the first `n` entries is one of them and matches.
pub proof fn lemma_find_in_prefix_found(s: Seq<EntryView>, x: EntryView, n: int)
    requires
        n <= s.len(),
    ensures
        find_in_prefix(s, x, n) matches Some(i) ==> 0 <= i < n && same_resource(s[i], x),
        find_in_prefix(s, x, n) is None ==> forall|j: int| 0 <= j < n ==> !same_resource(#[trigger] s[j], x),
    decreases n,
{
    if n > 0 {
        lemma_find_in_prefix_found(s, x, n - 1);
    }
}

/// A `.` is last in `s` when no `.` follows it.
proof fn lemma_last_dot(s: Seq<char>)
    ensures
        last_dot(s) matches Some(d) ==> 0 <= d < s.len() && s[d] == '.' && forall|j: int| d < j < s.len() ==> s[j] != '.',
        last_dot(s) is None ==> forall|j: int| 0 <= j < s.len() ==> s[j] != '.',
    decreases s.len(),
{
    if s.len() > 0 && s.last() != '.' {
        let t = s.drop_last();
        lemma_last_dot(t);
        assert forall|j: int| 0 <= j < t.len() implies t[j] == s[j] by {}
        if last_dot(s) is None {
            assert forall|j: int| 0 <= j < s.len() implies s[j] != '.' by {
                if j < t.len() {
                    assert(t[j] == s[j]);
                }
            }
        }
        if let Some(d) = last_dot(s) {
            assert forall|j: int| d < j < s.len() implies s[j] != '.' by {
                if j < t.len() {
                    assert(t[j] == s[j]);
                }
            }
        }
    }
}

/// `s` with `x` replacing the first entry for the same resource, or appended.
pub open spec fn with_resource(s: Seq<EntryView>, x: EntryView) -> Seq<EntryView> {
    match find_resource(s, x) {
        Some(i) => s.update(i, x),
        None => s.push(x),
    }
}

/// `s` with each of `incoming`, in order, put in by `with_resource`.
pub open spec fn merged(s: Seq<EntryView>, incoming: Seq<EntryView>) -> Seq<EntryView>
    decreases incoming.len(),
{
    if incoming.len() == 0 {
        s
    } else {
        with_resource(merged(s, incoming.drop_last()), incoming.last())
    }
}

/// How many of `incoming` were appended (rather than replacing) when merged into `s`.
pub open spec fn merge_added(s: Seq<EntryView>, incoming: Seq<EntryView>) -> nat
    decreases incoming.len(),
{
    if incoming.len() == 0 {
        0
    } else {
        merge_added(s, incoming.drop_last()) + if find_resource(
            merged(s, incoming.drop_last()),
            incoming.last(),
        ) is None {
            1nat
        } else {
            0nat
        }
    }
}

/// Putting `x` in makes an entry for its resource present, and grows the
/// sequence by one exactly when no entry for that resource was there.
pub proof fn lemma_with_resource(s: Seq<EntryView>, x: EntryView)
    ensures
        with_resource(s, x).contains(x),
        with_resource(s, x).len() == s.len() + if find_resource(s, x) is Some { 0int } else { 1int },
{
    lemma_find_in_prefix_found(s, x, s.len() as int);
    match find_resource(s, x) {
        Some(i) => {
            assert(with_resource(s, x)[i] == x);
        },
        None => {
            assert(with_resource(s, x)[s.len() as int] == x);
        },
    }
}

/// Adding a resource (`put_entry`, `add_file`) leaves the entries sorted,
/// with an entry for that resource, one more entry than before exactly when
/// none was replaced, and every other entry kept.
pub proof fn lemma_put_entry(s: Seq<EntryView>, x: EntryView)
    ensures
        is_sorted(sort_entries(with_resource(s, x))),
        sort_entries(with_resource(s, x)).contains(x),
        find_resource(sort_entries(with_resource(s, x)), x) is Some,
        sort_entries(with_resource(s, x)).len() == s.len() + if find_resource(s, x) is Some { 0int } else { 1int },
        sort_entries(with_resource(s, x)).to_multiset() == with_resource(s, x).to_multiset(),
{
    broadcast use vstd::seq_lib::group_to_multiset_ensures;
    let w = with_resource(s, x);
    let r = sort_entries(w);
    lemma_with_resource(s, x);
    lemma_sort_entries(w);
    assert(w.to_multiset().count(x) > 0);
    assert(r.to_multiset().count(x) > 0);
    assert(r.contains(x));
    let k = choose|k: int| 0 <= k < r.len() && r[k] == x;
    assert(same_resource(r[k], x));
    lemma_find_in_prefix_found(r, x, r.len() as int);
}

/// Merging appends exactly the counted number of entries.
pub proof fn lemma_merged_len(s: Seq<EntryView>, incoming: Seq<EntryView>)
    ensures
        merged(s, incoming).len() == s.len() + merge_added(s, incoming),
        merge_added(s, incoming) <= incoming.len(),
    decreases incoming.len(),
{
    if incoming.len() > 0 {
        lemma_merged_len(s, incoming.drop_last());
        lemma_with_resource(merged(s, incoming.drop_last()), incoming.last());
    }
}

/// The position of the last `.` in `s`.
fn find_last_dot(s: &[char]) -> (r: Option<usize>)
    ensures
        match last_dot(s@) {
            Some(d) => r == Some(d as usize),
            None => r is None,
        },
        r matches Some(d) ==> d < s@.len() && last_dot(s@) == Some(d as int),
{
    proof {
        lemma_last_dot(s@);
    }
    let mut i: usize = s.len();
    assert(s@.take(i as int) =~= s@);
    while i > 0
        invariant
            i <= s@.len(),
            last_dot(s@) == last_dot(s@.take(i as int)),
        decreases i,
    {
        if s[i - 1] == '.' {
            return Some(i - 1);
        }
        assert(s@.take(i as int).drop_last() =~= s@.take(i - 1));
        i = i - 1;
    }
    None
}

/// The characters of `s` before and after position `at`.
fn split_around(s: &[char], at: usize) -> (r: (Vec<char>, Vec<char>))
    requires
        at < s@.len(),
    ensures
        r.0@ == s@.take(at as int),
        r.1@ == s@.skip(at + 1),
{
    let mut stem: Vec<char> = Vec::new();
    let mut i: usize = 0;
    while i < at
        invariant
            at < s@.len(),
            i <= at,
            stem@ == s@.take(i as int),
        decreases at - i,
    {
        stem.push(s[i]);
        i = i + 1;
        assert(stem@ =~= s@.take(i as int));
    }
    let mut rest: Vec<char> = Vec::new();
    let n = s.len();
    let mut k: usize = at + 1;
    while k < s.len()
        invariant
            at < s@.len(),
            at + 1 <= k <= s@.len(),
            rest@ == s@.subrange(at + 1, k as int),
        decreases s@.len() - k,
    {
        rest.push(s[k]);
        k = k + 1;
        assert(rest@ =~= s@.subrange(at + 1, k as int));
    }
    assert(rest@ =~= s@.skip(at + 1));
    (stem, rest)
}

/// Whether `a` and `b` are the same resource.
fn is_same_resource(a: &Entry, b: &Entry) -> (r: bool)
    ensures
        r == same_resource(a@, b@),
{
    a.type_id == b.type_id && chars_eq_ignore_ascii_case(chars_of(a.name.as_str()).as_slice(), chars_of(b.name.as_str()).as_slice())
}

/// The index of the first entry of `entries` for the same resource as `x`.
fn position_of(entries: &Vec<Entry>, x: &Entry) -> (r: Option<usize>)
    ensures
        match find_resource(entry_views(entries@), x@) {
            Some(i) => r == Some(i as usize),
            None => r is None,
        },
        r matches Some(i) ==> i < entries@.len() && find_resource(entry_views(entries@), x@) == Some(i as int),
{
    let ghost s = entry_views(entries@);
    let mut i: usize = 0;
    while i < entries.len()
        invariant
            s == entry_views(entries@),
            i <= entries@.len(),
            find_in_prefix(s, x@, i as int) is None,
        decreases entries@.len() - i,
    {
        assert(s[i as int] == entries@[i as int]@);
        if is_same_resource(&entries[i], x) {
            proof {
                assert(find_in_prefix(s, x@, i + 1) == Some(i as int));
                lemma_find_in_prefix_found(s, x@, s.len() as int);
                lemma_find_in_prefix_stable(s, x@, i + 1, s.len() as int);
            }
            return Some(i);
        }
        i = i + 1;
    }
    None
}

/// The index of the first of the first `n` entries of `es` whose name is
/// not safe to extract, if any.
pub open spec fn unsafe_in_prefix(es: Seq<EntryView>, n: int) -> Option<int>
    decreases n,
{
    if n <= 0 {
        None
    } else {
        match unsafe_in_prefix(es, n - 1) {
            Some(i) => Some(i),
            None => if !safe_resource_name(es[n - 1].name, usize::MAX as int) {
                Some(n - 1)
            } else {
                None
            },
        }
    }
}

/// How many entries are extracted before the first one with an unsafe name
/// (all of them when every name is safe).
pub open spec fn extracted_count(es: Seq<EntryView>) -> int {
    match unsafe_in_prefix(es, es.len() as int) {
        Some(i) => i,
        None => es.len() as int,
    }
}

/// A first unsafe name among the first `n` entries stays the first among more.
proof fn lemma_unsafe_in_prefix_stable(es: Seq<EntryView>, n: int, m: int)
    requires
        0 <= n <= m,
        unsafe_in_prefix(es, n) is Some,
    ensures
        unsafe_in_prefix(es, m) == unsafe_in_prefix(es, n),
    decreases m - n,
{
    if m > n {
        lemma_unsafe_in_prefix_stable(es, n, m - 1);
    }
}

impl Archive {
    /// A new, empty archive. HAK archives start with a short description.
    pub fn new(kind: ArchiveKind, version: ArchiveVersion) -> (r: Self)
        ensures
            r@.kind == kind,
            r@.version == version,
            r@.path is None,
            r@.entries.len() == 0,
            r@.localized == seq![LocalizedView { language_id: 0, bytes: default_description(kind) }],
            r@.description_strref == u32::MAX,
    {
        let description = if kind == ArchiveKind::Hak {
            vstd::slice::slice_to_vec("Aurora Hak Explorer\nCreated with AHE".as_bytes())
        } else {
            Vec::new()
        };
        let mut localized: Vec<LocalizedString> = Vec::new();
        localized.push(LocalizedString { language_id: 0, bytes: description });
        let r = Archive {
            kind,
            version,
            path: None,
            entries: Vec::new(),
            localized,
            description_strref: u32::MAX,
        };
        assert(r@.entries =~= Seq::<EntryView>::empty());
        assert(r@.localized =~= seq![LocalizedView { language_id: 0, bytes: default_description(kind) }]);
        r
    }

    /// The archive's description: the first localized string, decoded.
    pub fn description(&self) -> (r: String)
        ensures
            r@ == description_of(self@),
    {
        if self.localized.len() > 0 {
            assert(self@.localized[0] == self.localized@[0]@);
            decode_lossy(self.localized[0].bytes.as_slice())
        } else {
            String::new()
        }
    }

    /// Replaces the description (the first localized string's text).
    pub fn set_description(&mut self, text: String)
        ensures
            final(self)@.localized == with_description(old(self)@.localized, text@),
            final(self)@.kind == old(self)@.kind,
            final(self)@.version == old(self)@.version,
            final(self)@.path == old(self)@.path,
            final(self)@.entries == old(self)@.entries,
            final(self)@.description_strref == old(self)@.description_strref,
    {
        let bytes = vstd::slice::slice_to_vec(text.as_str().as_bytes());
        let ghost before = self@.localized;
        if self.localized.len() > 0 {
            let language_id = self.localized[0].language_id;
            self.localized.set(0, LocalizedString { language_id, bytes });
            assert(self@.localized =~= with_description(before, text@));
        } else {
            self.localized.push(LocalizedString { language_id: 0, bytes });
            assert(self@.localized =~= with_description(before, text@));
        }
    }

    /// The entry that the file at `path` becomes (see `resource_entry`).
    #[verifier::spinoff_prover]
    #[verifier::rlimit(40)]
    pub fn entry_from_file(&self, path: PathBuf, is_file: bool, file_name: Option<&str>) -> (r: Result<Entry, ArchiveError>)
        ensures
            match resource_entry(self.version, path, is_file, match file_name { Some(f) => Some(f@), None => None }) {
                Ok(e) => r matches Ok(x) && x@ == e,
                Err(e) => r == Err::<Entry, ArchiveError>(e),
            },
    {
        if !is_file {
            return Err(ArchiveError::NotRegularFile);
        }
        let file_name = match file_name {
            Some(f) => f,
            None => return Err(ArchiveError::FileNameNotUtf8),
        };
        let chars = chars_of(file_name);
        let dot = match find_last_dot(chars.as_slice()) {
            Some(d) => d,
            None => return Err(ArchiveError::NoExtension),
        };
        let (stem, ext) = split_around(chars.as_slice(), dot);
        let ext_text = string_from_chars(ext.as_slice());
        let type_id = match type_for(ext_text.as_str()) {
            Some(t) => t,
            None => return Err(ArchiveError::UnknownExtension),
        };
        let stem_text = string_from_chars(stem.as_slice());
        let name = match sanitize_name(stem_text.as_str(), self.version.name_len()) {
            Ok(n) => n,
            Err(e) => return Err(e),
        };
        Ok(Entry { name, type_id, data: EntryData::ExternalFile(path) })
    }

    /// Puts `entry` into the archive, replacing the entry for the same
    /// resource if there is one, and sorts the entries. Returns whether an
    /// entry was replaced.
    pub fn put_entry(&mut self, entry: Entry) -> (replaced: bool)
        ensures
            replaced == (find_resource(old(self)@.entries, entry@) is Some),
            final(self)@.entries == sort_entries(with_resource(old(self)@.entries, entry@)),
            final(self)@.kind == old(self)@.kind,
            final(self)@.version == old(self)@.version,
            final(self)@.path == old(self)@.path,
            final(self)@.localized == old(self)@.localized,
            final(self)@.description_strref == old(self)@.description_strref,
    {
        let ghost before = self@.entries;
        let ghost x = entry@;
        let replacement = position_of(&self.entries, &entry);
        match replacement {
            Some(index) => {
                self.entries.set(index, entry);
                assert(entry_views(self.entries@) =~= with_resource(before, x));
            },
            None => {
                self.entries.push(entry);
                assert(entry_views(self.entries@) =~= with_resource(before, x));
            },
        }
        let mut taken: Vec<Entry> = Vec::new();
        std::mem::swap(&mut taken, &mut self.entries);
        self.entries = sort_entry_vec(taken);
        replacement.is_some()
    }

    /// Adds the resource file at `path` (see `resource_entry`), replacing the
    /// entry for the same resource if there is one. Returns whether an entry
    /// was replaced. On an error the archive is unchanged.
    pub fn add_named_file(&mut self, path: PathBuf, is_file: bool, file_name: Option<&str>) -> (r: Result<bool, ArchiveError>)
        ensures
            match resource_entry(old(self)@.version, path, is_file, match file_name { Some(f) => Some(f@), None => None }) {
                Ok(e) => {
                    &&& r == Ok::<bool, ArchiveError>(find_resource(old(self)@.entries, e) is Some)
                    &&& final(self)@.entries == sort_entries(with_resource(old(self)@.entries, e))
                },
                Err(e) => r == Err::<bool, ArchiveError>(e) && final(self)@ == old(self)@,
            },
            final(self)@.kind == old(self)@.kind,
            final(self)@.version == old(self)@.version,
            final(self)@.path == old(self)@.path,
            final(self)@.localized == old(self)@.localized,
            final(self)@.description_strref == old(self)@.description_strref,
    {
        match self.entry_from_file(path, is_file, file_name) {
            Ok(entry) => Ok(self.put_entry(entry)),
            Err(e) => Err(e),
        }
    }

    /// Adds the resource file at `path`; `is_file` tells whether it is a
    /// regular file. See `add_named_file`, which this calls with the path's
    /// file name.
    pub fn add_file(&mut self, path: PathBuf, is_file: bool) -> (r: Result<bool, ArchiveError>)
        ensures
            match resource_entry(old(self)@.version, path, is_file, utf8_file_name_of(path)) {
                Ok(e) => {
                    &&& r == Ok::<bool, ArchiveError>(find_resource(old(self)@.entries, e) is Some)
                    &&& final(self)@.entries == sort_entries(with_resource(old(self)@.entries, e))
                },
                Err(e) => r == Err::<bool, ArchiveError>(e) && final(self)@ == old(self)@,
            },
            final(self)@.kind == old(self)@.kind,
            final(self)@.version == old(self)@.version,
            final(self)@.path == old(self)@.path,
            final(self)@.localized == old(self)@.localized,
            final(self)@.description_strref == old(self)@.description_strref,
    {
        let name = utf8_file_name(&path);
        let r = match &name {
            Some(n) => self.add_named_file(path, is_file, Some(n.as_str())),
            None => self.add_named_file(path, is_file, None),
        };
        r
    }

    /// The file name of the entry that the named file would replace, if any.
    pub fn conflicting_named_file(&self, path: &PathBuf, is_file: bool, file_name: Option<&str>) -> (r: Result<Option<String>, ArchiveError>)
        ensures
            match resource_entry(self.version, *path, is_file, match file_name { Some(f) => Some(f@), None => None }) {
                Ok(e) => match find_resource(self@.entries, e) {
                    Some(i) => r matches Ok(Some(s)) && s@ == entry_filename(self@.entries[i]),
                    None => r matches Ok(None),
                },
                Err(e) => r == Err::<Option<String>, ArchiveError>(e),
            },
    {
        let incoming = match self.entry_from_file(copy_path(path), is_file, file_name) {
            Ok(x) => x,
            Err(e) => return Err(e),
        };
        match position_of(&self.entries, &incoming) {
            Some(i) => {
                assert(self@.entries[i as int] == self.entries@[i as int]@);
                Ok(Some(self.entries[i].filename()))
            },
            None => Ok(None),
        }
    }

    /// The file name of the entry that the file at `path` would replace, if any.
    pub fn conflicting_filename(&self, path: &PathBuf, is_file: bool) -> (r: Result<Option<String>, ArchiveError>)
        ensures
            match resource_entry(self.version, *path, is_file, utf8_file_name_of(*path)) {
                Ok(e) => match find_resource(self@.entries, e) {
                    Some(i) => r matches Ok(Some(s)) && s@ == entry_filename(self@.entries[i]),
                    None => r matches Ok(None),
                },
                Err(e) => r == Err::<Option<String>, ArchiveError>(e),
            },
    {
        let name = utf8_file_name(path);
        match &name {
            Some(n) => self.conflicting_named_file(path, is_file, Some(n.as_str())),
            None => self.conflicting_named_file(path, is_file, None),
        }
    }

    /// Copies every entry of `other` in, each replacing the entry for the
    /// same resource or appended, then sorts. Returns how many were appended
    /// and how many replaced an entry.
    pub fn merge(&mut self, other: &Archive) -> (r: (usize, usize))
        ensures
            final(self)@.entries == sort_entries(merged(old(self)@.entries, other@.entries)),
            r.0 == merge_added(old(self)@.entries, other@.entries),
            r.1 == other@.entries.len() - merge_added(old(self)@.entries, other@.entries),
            final(self)@.kind == old(self)@.kind,
            final(self)@.version == old(self)@.version,
            final(self)@.path == old(self)@.path,
            final(self)@.localized == old(self)@.localized,
            final(self)@.description_strref == old(self)@.description_strref,
    {
        let ghost start = self@.entries;
        let ghost incoming = other@.entries;
        let mut added: usize = 0;
        let mut replaced: usize = 0;
        let mut i: usize = 0;
        assert(incoming.take(0) =~= Seq::<EntryView>::empty());
        while i < other.entries.len()
            invariant
                i <= other.entries@.len(),
                incoming == other@.entries,
                start == old(self)@.entries,
                entry_views(self.entries@) == merged(start, incoming.take(i as int)),
                added == merge_added(start, incoming.take(i as int)),
                added + replaced == i,
                self.kind == old(self).kind,
                self.version == old(self).version,
                self.path == old(self).path,
                self@.localized == old(self)@.localized,
                self.description_strref == old(self).description_strref,
            decreases other.entries@.len() - i,
        {
            let incoming_entry = other.entries[i].clone();
            let ghost before = entry_views(self.entries@);
            proof {
                assert(incoming.take(i + 1).drop_last() =~= incoming.take(i as int));
                assert(incoming.take(i + 1).last() == incoming[i as int]);
                assert(incoming[i as int] == other.entries@[i as int]@);
            }
            match position_of(&self.entries, &incoming_entry) {
                Some(index) => {
                    self.entries.set(index, incoming_entry);
                    replaced = replaced + 1;
                    assert(entry_views(self.entries@) =~= with_resource(before, incoming[i as int]));
                },
                None => {
                    self.entries.push(incoming_entry);
                    added = added + 1;
                    assert(entry_views(self.entries@) =~= with_resource(before, incoming[i as int]));
                },
            }
            i = i + 1;
        }
        assert(incoming.take(incoming.len() as int) =~= incoming);
        let mut taken: Vec<Entry> = Vec::new();
        std::mem::swap(&mut taken, &mut self.entries);
        self.entries = sort_entry_vec(taken);
        (added, replaced)
    }
}

impl Archive {
    /// The file names under which the entries are extracted, in order, up
    /// to the first entry whose name is not safe; and the error that entry
    /// gives, if there is one. Nothing is to be extracted past that entry.
    pub fn extraction_names(&self) -> (r: (Vec<String>, Option<ArchiveError>))
        ensures
            r.0@.len() == extracted_count(self@.entries),
            forall|i: int| 0 <= i < r.0@.len() ==> #[trigger] r.0@[i]@ == entry_filename(self@.entries[i])
                && is_single_component(r.0@[i]@),
            r.1 == (if unsafe_in_prefix(self@.entries, self@.entries.len() as int) is Some {
                Some(ArchiveError::UnsafeResourceName)
            } else {
                None::<ArchiveError>
            }),
    {
        let ghost es = self@.entries;
        let mut names: Vec<String> = Vec::new();
        let mut i: usize = 0;
        while i < self.entries.len()
            invariant
                es == self@.entries,
                i <= es.len(),
                unsafe_in_prefix(es, i as int) is None,
                names@.len() == i,
                forall|j: int| 0 <= j < i ==> #[trigger] names@[j]@ == entry_filename(es[j])
                    && is_single_component(names@[j]@),
            decreases es.len() - i,
        {
            assert(es[i as int] == self.entries@[i as int]@);
            match self.entries[i].safe_filename() {
                Ok(name) => {
                    names.push(name);
                },
                Err(e) => {
                    proof {
                        assert(unsafe_in_prefix(es, i + 1) == Some(i as int));
                        lemma_unsafe_in_prefix_stable(es, i + 1, es.len() as int);
                    }
                    return (names, Some(e));
                },
            }
            i = i + 1;
        }
        (names, None)
    }
}

/// The final component of `path`, when there is one and it is valid UTF-8,
/// as `Path::file_name` and `OsStr::to_str` give it: a function of the path.
pub uninterp spec fn utf8_file_name_of(path: PathBuf) -> Option<Seq<char>>;

/// The final component of `path` when it is valid UTF-8. Calls
/// `Path::file_name`, trusted to depend on the path alone.
#[verifier::external_body]
fn utf8_file_name(path: &PathBuf) -> (r: Option<String>)
    ensures
        match r {
            Some(s) => utf8_file_name_of(*path) == Some(s@),
            None => utf8_file_name_of(*path) is None,
        },
{
    match path.file_name() {
        Some(name) => match name.to_str() {
            Some(text) => Some(text.to_owned()),
            None => None,
        },
        None => None,
    }
}

} // verus!

verus! {

/// Setting the description replaces the bytes of the first localized
/// string with the text's UTF-8 and keeps its language; the other strings
/// stay as they were. An archive without localized strings gets one, in
/// language 0.
pub proof fn lemma_set_description_keeps_language(l: Seq<LocalizedView>, text: Seq<char>)
    ensures
        l.len() > 0 ==> {
            let r = with_description(l, text);
            &&& r.len() == l.len()
            &&& r[0].language_id == l[0].language_id
            &&& r[0].bytes == encode_utf8(text)
            &&& forall|i: int| 0 < i < l.len() ==> #[trigger] r[i] == l[i]
        },
        l.len() == 0 ==> with_description(l, text) == seq![LocalizedView { language_id: 0, bytes: encode_utf8(text) }],
{
}

/// ASCII text takes one byte per character in UTF-8.
proof fn lemma_ascii_utf8_len(s: Seq<char>)
    requires
        forall|i: int| 0 <= i < s.len() ==> (#[trigger] s[i] as u32) <= 0x7f,
    ensures
        utf8_len(s) == s.len(),
    decreases s.len(),
{
    if s.len() == 0 {
        assert(encode_utf8(s) =~= Seq::<u8>::empty());
    } else {
        let t = s.drop_last();
        assert forall|i: int| 0 <= i < t.len() implies (#[trigger] t[i] as u32) <= 0x7f by {
            assert(t[i] == s[i]);
        }
        lemma_ascii_utf8_len(t);
        crate::text::lemma_utf8_len_push(t, s.last());
        assert(t.push(s.last()) =~= s);
        assert(s[s.len() - 1] as u32 <= 0x7f);
    }
}

/// Adding a file `stem.ext` whose stem is 1 to as many ASCII letters,
/// digits and underscores as the version's name field holds, and whose
/// extension (with no dot in it) names a resource type, gives the entry
/// named by the stem in ASCII lower case, of that type, with the file as
/// its data.
pub proof fn lemma_plain_stems_are_accepted(
    version: ArchiveVersion,
    path: PathBuf,
    stem: Seq<char>,
    ext: Seq<char>,
    type_id: u16,
)
    requires
        1 <= stem.len() <= name_field_len(version),
        forall|i: int| 0 <= i < stem.len() ==> {
            let c = #[trigger] stem[i];
            ('a' <= c && c <= 'z') || ('A' <= c && c <= 'Z') || ('0' <= c && c <= '9') || c == '_'
        },
        forall|i: int| 0 <= i < ext.len() ==> #[trigger] ext[i] != '.',
        type_of_extension(ext) == Some(type_id),
    ensures
        resource_entry(version, path, true, Some(stem + seq!['.'] + ext)) == Ok::<EntryView, ArchiveError>(
            EntryView { name: ascii_lowercase(stem), type_id, data: DataView::ExternalFile(path) },
        ),
{
    lemma_stem_split(stem, ext);
    lemma_plain_stem_sanitized(stem, name_field_len(version) as int);
}

/// In `stem.ext` with no dot in `ext`, the last dot is the one after the stem.
proof fn lemma_stem_split(stem: Seq<char>, ext: Seq<char>)
    requires
        forall|i: int| 0 <= i < ext.len() ==> #[trigger] ext[i] != '.',
    ensures
        last_dot(stem + seq!['.'] + ext) == Some(stem.len() as int),
        (stem + seq!['.'] + ext).take(stem.len() as int) == stem,
        (stem + seq!['.'] + ext).skip(stem.len() as int + 1) == ext,
{
    let f = stem + seq!['.'] + ext;
    let n = stem.len() as int;
    lemma_last_dot(f);
    assert(f[n] == '.');
    match last_dot(f) {
        Some(d) => {
            if d > n {
                assert(f[d] == ext[d - n - 1]);
            }
        },
        None => {},
    }
    assert(f.take(n) =~= stem);
    assert(f.skip(n + 1) =~= ext);
}

/// An ASCII letter, digit or underscore, lowered, is still one, and ASCII.
proof fn lemma_lowered_name_char(c: char)
    requires
        ('a' <= c && c <= 'z') || ('A' <= c && c <= 'Z') || ('0' <= c && c <= '9') || c == '_',
    ensures
        is_name_char(crate::text::ascii_lower(c)),
        (crate::text::ascii_lower(c) as u32) <= 0x7f,
{
}

/// A stem of 1 to `max` ASCII letters, digits and underscores is accepted,
/// lowered.
pub proof fn lemma_plain_stem_sanitized(stem: Seq<char>, max: int)
    requires
        1 <= stem.len() <= max,
        forall|i: int| 0 <= i < stem.len() ==> {
            let c = #[trigger] stem[i];
            ('a' <= c && c <= 'z') || ('A' <= c && c <= 'Z') || ('0' <= c && c <= '9') || c == '_'
        },
    ensures
        sanitized_name(stem, max) == Some(ascii_lowercase(stem)),
{
    let lowered = ascii_lowercase(stem);
    assert forall|i: int| 0 <= i < lowered.len() implies is_name_char(#[trigger] lowered[i])
        && (lowered[i] as u32) <= 0x7f by {
        lemma_lowered_name_char(stem[i]);
    }
    lemma_ascii_utf8_len(lowered);
}

/// An entry that is in `m` and is not the same resource as `x` stays in
/// `m` once `x` is put in.
proof fn lemma_with_resource_keeps(m: Seq<EntryView>, x: EntryView, y: EntryView)
    requires
        m.contains(y),
        !same_resource(y, x),
    ensures
        with_resource(m, x).contains(y),
{
    let k = choose|k: int| 0 <= k < m.len() && m[k] == y;
    lemma_find_in_prefix_found(m, x, m.len() as int);
    match find_resource(m, x) {
        Some(idx) => {
            assert(k != idx);
            assert(with_resource(m, x)[k] == y);
        },
        None => {
            assert(with_resource(m, x)[k] == y);
        },
    }
}

/// After merging `incoming` into `s`, each incoming entry that no later
/// incoming entry replaces is among the entries, exactly as it came (name,
/// type and data); and every entry is one of `s` or one of `incoming`.
proof fn lemma_merged_holds_incoming(s: Seq<EntryView>, incoming: Seq<EntryView>)
    ensures
        forall|i: int|
            0 <= i < incoming.len() && (forall|j: int| i < j < incoming.len() ==> !same_resource(incoming[i], #[trigger] incoming[j]))
                ==> merged(s, incoming).contains(#[trigger] incoming[i]),
        forall|e: EntryView| #[trigger] merged(s, incoming).contains(e) ==> s.contains(e) || incoming.contains(e),
    decreases incoming.len(),
{
    if incoming.len() > 0 {
        let t = incoming.drop_last();
        let x = incoming.last();
        let m = merged(s, t);
        lemma_merged_holds_incoming(s, t);
        lemma_with_resource(m, x);
        lemma_find_in_prefix_found(m, x, m.len() as int);
        assert forall|i: int|
            0 <= i < incoming.len() && (forall|j: int| i < j < incoming.len() ==> !same_resource(incoming[i], #[trigger] incoming[j]))
                implies merged(s, incoming).contains(#[trigger] incoming[i]) by {
            if i < incoming.len() - 1 {
                assert(incoming[i] == t[i]);
                assert forall|j: int| i < j < t.len() implies !same_resource(t[i], #[trigger] t[j]) by {
                    assert(t[j] == incoming[j]);
                }
                assert(m.contains(t[i]));
                assert(!same_resource(incoming[i], incoming[incoming.len() - 1]));
                lemma_with_resource_keeps(m, x, incoming[i]);
            }
        }
        assert forall|e: EntryView| #[trigger] merged(s, incoming).contains(e) implies s.contains(e) || incoming.contains(e) by {
            let w = merged(s, incoming);
            let k = choose|k: int| 0 <= k < w.len() && w[k] == e;
            if e == x {
                assert(incoming[incoming.len() - 1] == x);
            } else {
                match find_resource(m, x) {
                    Some(idx) => {
                        assert(w[k] == m[k]);
                    },
                    None => {
                        assert(w[k] == m[k]);
                    },
                }
                assert(m.contains(e));
                if t.contains(e) {
                    let j = choose|j: int| 0 <= j < t.len() && t[j] == e;
                    assert(incoming[j] == e);
                }
            }
        }
    }
}

/// After `merge`, each entry of the other archive that no later entry of it
/// replaces is among the archive's entries exactly as it came (name, type
/// and data), and every entry is one the archive had or one of the other's.
pub proof fn lemma_merge_takes_incoming(s: Seq<EntryView>, incoming: Seq<EntryView>)
    ensures
        forall|i: int|
            0 <= i < incoming.len() && (forall|j: int| i < j < incoming.len() ==> !same_resource(incoming[i], #[trigger] incoming[j]))
                ==> sort_entries(merged(s, incoming)).contains(#[trigger] incoming[i]),
        forall|e: EntryView| #[trigger] sort_entries(merged(s, incoming)).contains(e) ==> s.contains(e) || incoming.contains(e),
{
    broadcast use vstd::seq_lib::group_to_multiset_ensures;
    let w = merged(s, incoming);
    lemma_merged_holds_incoming(s, incoming);
    lemma_sort_entries(w);
    assert forall|e: EntryView| #[trigger] sort_entries(w).contains(e) <==> w.contains(e) by {
        assert(sort_entries(w).to_multiset().count(e) == w.to_multiset().count(e));
    }
}

} // verus!
