//! Names of the temporary files that saving an archive leaves behind, and
//! of the records that let a later launch remove them after a crash.

use vstd::prelude::*;
use crate::text::{chars_of, utf8_len, utf8_len_at_most};

verus! {

broadcast use vstd::string::group_string_axioms;

/// The prefix of a temporary archive written while saving.
pub open spec fn save_temp_prefix() -> Seq<char> {
    ".ahe-save-"@
}

/// The suffix of a temporary archive written while saving.
pub open spec fn save_temp_suffix() -> Seq<char> {
    ".tmp"@
}

/// The prefix of a recovery record.
pub open spec fn recovery_record_prefix() -> Seq<char> {
    "ahe-save-recovery-"@
}

/// `s` starts with `p`.
pub open spec fn starts_with(s: Seq<char>, p: Seq<char>) -> bool {
    p.len() <= s.len() && s.take(p.len() as int) == p
}

/// `s` ends with `p`.
pub open spec fn ends_with(s: Seq<char>, p: Seq<char>) -> bool {
    p.len() <= s.len() && s.skip(s.len() - p.len()) == p
}

/// `name` names a recovery record: the prefix and at least one more byte.
pub open spec fn is_recovery_record_name(name: Seq<char>) -> bool {
    starts_with(name, recovery_record_prefix()) && utf8_len(name) > 18
}

/// `name` names a temporary archive of a save: the prefix, the suffix,
/// and at least one byte between them.
pub open spec fn is_save_file_name(name: Seq<char>) -> bool {
    starts_with(name, save_temp_prefix()) && ends_with(name, save_temp_suffix()) && utf8_len(name)
        > 14
}

/// Whether `s` starts with `p`.
fn chars_start_with(s: &[char], p: &[char]) -> (r: bool)
    ensures
        r == starts_with(s@, p@),
{
    if p.len() > s.len() {
        return false;
    }
    let mut i: usize = 0;
    while i < p.len()
        invariant
            p@.len() <= s@.len(),
            i <= p@.len(),
            forall|j: int| 0 <= j < i ==> s@[j] == p@[j],
        decreases p@.len() - i,
    {
        if s[i] != p[i] {
            assert(s@.take(p@.len() as int)[i as int] != p@[i as int]);
            return false;
        }
        i = i + 1;
    }
    assert(s@.take(p@.len() as int) =~= p@);
    true
}

/// Whether `s` ends with `p`.
fn chars_end_with(s: &[char], p: &[char]) -> (r: bool)
    ensures
        r == ends_with(s@, p@),
{
    if p.len() > s.len() {
        return false;
    }
    let off = s.len() - p.len();
    let mut i: usize = 0;
    while i < p.len()
        invariant
            p@.len() <= s@.len(),
            s@.len() <= usize::MAX,
            off == s@.len() - p@.len(),
            i <= p@.len(),
            forall|j: int| 0 <= j < i ==> s@[off + j] == p@[j],
        decreases p@.len() - i,
    {
        if s[off + i] != p[i] {
            assert(s@.skip(off as int)[i as int] != p@[i as int]);
            return false;
        }
        i = i + 1;
    }
    assert(s@.skip(off as int) =~= p@);
    true
}

/// Whether `name` names a recovery record.
pub fn is_recovery_record_name_text(name: &str) -> (r: bool)
    ensures
        r == is_recovery_record_name(name@),
{
    let chars = chars_of(name);
    let prefix = chars_of("ahe-save-recovery-");
    chars_start_with(chars.as_slice(), prefix.as_slice()) && !utf8_len_at_most(chars.as_slice(), 18)
}

/// Whether `name` names a temporary archive of a save.
pub fn is_save_file_name_text(name: &str) -> (r: bool)
    ensures
        r == is_save_file_name(name@),
{
    let chars = chars_of(name);
    let prefix = chars_of(".ahe-save-");
    let suffix = chars_of(".tmp");
    chars_start_with(chars.as_slice(), prefix.as_slice()) && chars_end_with(chars.as_slice(), suffix.as_slice())
        && !utf8_len_at_most(chars.as_slice(), 14)
}

/// The largest recovery record that is read.
pub const MAX_RECOVERY_RECORD_BYTES: u64 = 65_536;

/// A file found as a recovery record is read when it is one by name and
/// place, is a regular file and not a symbolic link, and is at most
/// `MAX_RECOVERY_RECORD_BYTES` long.
pub open spec fn record_is_readable(is_record: bool, is_file: bool, is_symlink: bool, len: u64) -> bool {
    is_record && is_file && !is_symlink && len <= MAX_RECOVERY_RECORD_BYTES
}

/// Whether a recovery record with these facts is read.
pub fn should_read_record(is_record: bool, is_file: bool, is_symlink: bool, len: u64) -> (r: bool)
    ensures
        r == record_is_readable(is_record, is_file, is_symlink, len),
{
    is_record && is_file && !is_symlink && len <= MAX_RECOVERY_RECORD_BYTES
}

/// The file a record names is removed only when its path is absolute, its
/// name is that of a save's temporary file, and it is a regular file that
/// is not a symbolic link.
pub open spec fn save_file_is_removable(
    is_absolute: bool,
    file_name: Option<Seq<char>>,
    is_file: bool,
    is_symlink: bool,
) -> bool {
    is_absolute && (file_name matches Some(n) && is_save_file_name(n)) && is_file && !is_symlink
}

/// Whether the file that a recovery record names, with these facts, is removed.
pub fn should_remove_save_file(is_absolute: bool, file_name: Option<&str>, is_file: bool, is_symlink: bool) -> (r: bool)
    ensures
        r == save_file_is_removable(
            is_absolute,
            match file_name {
                Some(n) => Some(n@),
                None => None,
            },
            is_file,
            is_symlink,
        ),
{
    let named = match file_name {
        Some(n) => is_save_file_name_text(n),
        None => false,
    };
    is_absolute && named && is_file && !is_symlink
}

/// The bytes that a recovery record stores for the path with bytes `path`.
pub open spec fn encoded_path(path: Seq<u8>) -> Seq<u8> {
    path
}

/// The path that a recovery record holding `bytes` names; an empty record names none.
pub open spec fn decoded_path(bytes: Seq<u8>) -> Option<Seq<u8>> {
    if bytes.len() == 0 {
        None
    } else {
        Some(bytes)
    }
}

/// The bytes that a recovery record stores for the path with bytes `path`.
pub fn encode_path(path: &[u8]) -> (r: Vec<u8>)
    ensures
        r@ == encoded_path(path@),
{
    vstd::slice::slice_to_vec(path)
}

/// The path (as bytes) that a recovery record holding `bytes` names.
pub fn decode_path(bytes: Vec<u8>) -> (r: Option<Vec<u8>>)
    ensures
        match decoded_path(bytes@) {
            Some(p) => r matches Some(v) && v@ == p,
            None => r is None,
        },
{
    if bytes.len() == 0 {
        None
    } else {
        Some(bytes)
    }
}

/// Decoding what was encoded gives back any non-empty path.
pub proof fn lemma_path_encoding_round_trip(path: Seq<u8>)
    requires
        path.len() > 0,
    ensures
        decoded_path(encoded_path(path)) == Some(path),
{
}

} // verus!
