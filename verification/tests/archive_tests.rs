use aurora_hak_explorer::archive::{
    validate_archive_resource_name, Archive, ArchiveError, ArchiveKind, ArchiveVersion, Entry,
    EntryData, Region,
};
use aurora_hak_explorer::build_date::{erf_build_date, is_leap_year};
use aurora_hak_explorer::index_region::index_length;
use aurora_hak_explorer::order::sort_entry_vec;
use aurora_hak_explorer::resource_types::{extension_for, type_for};
use std::path::PathBuf;

const DAYS: u64 = 20_000;

fn written(archive: &Archive, data: &[&[u8]]) -> Vec<u8> {
    let sizes: Vec<u64> = data.iter().map(|d| d.len() as u64).collect();
    let mut bytes = archive.index_bytes(&sizes, DAYS).unwrap();
    for d in data {
        bytes.extend_from_slice(d);
    }
    bytes
}

fn slice_of<'a>(bytes: &'a [u8], entry: &Entry) -> &'a [u8] {
    match &entry.data {
        EntryData::ArchiveSlice { offset, size, .. } => {
            &bytes[*offset as usize..(*offset + *size) as usize]
        }
        _ => panic!("entry does not refer to the archive"),
    }
}

#[test]
fn round_trip_v10() {
    let mut archive = Archive::new(ArchiveKind::Hak, ArchiveVersion::V1_0);
    archive.entries.push(Entry {
        name: "sample".into(),
        type_id: 0x07e1,
        data: EntryData::Memory(b"2DA V2.0\n".to_vec()),
    });
    let bytes = written(&archive, &[b"2DA V2.0\n"]);
    let loaded = Archive::from_bytes(&bytes, PathBuf::from("test.hak"), Some(b"hak")).unwrap();
    assert_eq!(loaded.entries.len(), 1);
    assert_eq!(loaded.entries[0].filename(), "sample.2da");
    assert_eq!(slice_of(&bytes, &loaded.entries[0]), b"2DA V2.0\n");
}

#[test]
fn rejects_bad_ranges() {
    assert!(Archive::from_bytes(b"HAK V1.0", PathBuf::from("bad.hak"), Some(b"hak")).is_err());
}

#[test]
fn accepts_legacy_erf_tool_localized_length() {
    let mut archive = Archive::new(ArchiveKind::Hak, ArchiveVersion::V1_0);
    archive.set_description("Created by the old erf utility".into());
    let mut bytes = written(&archive, &[]);

    // The old utility's string length includes its own eight-byte record header.
    let localized_size = u32::from_le_bytes(bytes[12..16].try_into().unwrap());
    bytes[164..168].copy_from_slice(&localized_size.to_le_bytes());

    let loaded = Archive::from_bytes(&bytes, PathBuf::from("legacy.hak"), Some(b"hak")).unwrap();
    assert_eq!(loaded.description(), "Created by the old erf utility");
}

#[test]
fn rejects_localized_count_larger_than_its_table() {
    let archive = Archive::new(ArchiveKind::Hak, ArchiveVersion::V1_0);
    let mut bytes = written(&archive, &[]);
    bytes[8..12].copy_from_slice(&1_000_000_u32.to_le_bytes());
    let error = Archive::from_bytes(&bytes, PathBuf::from("bad-count.hak"), Some(b"hak")).unwrap_err();
    assert!(error.message().contains("count exceeds"));
}

#[test]
fn rejects_unsafe_resource_names_before_they_can_escape_extraction() {
    let mut archive = Archive::new(ArchiveKind::Hak, ArchiveVersion::V1_0);
    archive.entries.push(Entry {
        name: "sample".into(),
        type_id: 0x000a,
        data: EntryData::Memory(b"test".to_vec()),
    });
    let mut bytes = written(&archive, &[b"test"]);
    let key_offset = u32::from_le_bytes(bytes[24..28].try_into().unwrap()) as usize;
    bytes[key_offset..key_offset + 16].fill(0);
    bytes[key_offset..key_offset + 9].copy_from_slice(b"../escape");
    let error = Archive::from_bytes(&bytes, PathBuf::from("unsafe-name.hak"), Some(b"hak")).unwrap_err();
    assert!(error.message().contains("unsafe resource name"));
}

#[test]
fn extraction_rechecks_names_and_preserves_real_world_compatibility() {
    for name in ["Metal weathered", "cav_copper-01", "cat_range_+1"] {
        validate_archive_resource_name(name, 16).unwrap();
    }
    for name in ["../escape", r"C:\escape", "bad:name", "line\nbreak"] {
        assert!(validate_archive_resource_name(name, 16).is_err());
    }

    let mut archive = Archive::new(ArchiveKind::Hak, ArchiveVersion::V1_0);
    archive.entries.push(Entry {
        name: "../escape".into(),
        type_id: 0x000a,
        data: EntryData::Memory(b"must not escape".to_vec()),
    });
    // Extraction fails, and no file is named for writing: not `escape.txt`
    // nor anything else.
    let (names, error) = archive.extraction_names();
    assert_eq!(error, Some(ArchiveError::UnsafeResourceName));
    assert!(names.is_empty());
    assert!(!names.iter().any(|name| name.contains("escape")));
}

#[test]
fn extraction_stops_at_the_first_unsafe_name() {
    let mut archive = Archive::new(ArchiveKind::Erf, ArchiveVersion::V1_0);
    for (name, type_id) in [("first", 10u16), ("second", 2017), ("bad:name", 10), ("last", 10)] {
        archive.entries.push(Entry { name: name.into(), type_id, data: EntryData::Memory(vec![]) });
    }
    let (names, error) = archive.extraction_names();
    assert_eq!(names, vec!["first.txt".to_string(), "second.2da".to_string()]);
    assert_eq!(error, Some(ArchiveError::UnsafeResourceName));
    archive.entries.remove(2);
    let (names, error) = archive.extraction_names();
    assert_eq!(names.len(), 3);
    assert_eq!(error, None);
}

#[test]
fn rejects_impractical_resource_counts_before_allocating() {
    let archive = Archive::new(ArchiveKind::Hak, ArchiveVersion::V1_0);
    let mut bytes = written(&archive, &[]);
    bytes[16..20].copy_from_slice(&(1_000_000_u32 + 1).to_le_bytes());
    let error = Archive::from_bytes(&bytes, PathBuf::from("too-many.hak"), Some(b"hak")).unwrap_err();
    assert!(error.message().contains("more than"));
}

#[test]
fn erf_build_dates_observe_leap_years() {
    assert_eq!(erf_build_date(0), (70, 1));
    assert_eq!(erf_build_date(365 + 365), (72, 1));
    assert_eq!(erf_build_date(365 + 365 + 365), (72, 366));
    assert_eq!(erf_build_date(365 + 365 + 366), (73, 1));
}

#[test]
fn adds_common_and_enhanced_edition_resources() {
    let mut archive = Archive::new(ArchiveKind::Hak, ArchiveVersion::V1_0);
    for (name, expected_type) in [
        ("model.mdl", 0x07d2),
        ("texture.dds", 0x07f1),
        ("table.2da", 0x07e1),
        ("material.mtr", 0x0818),
    ] {
        let path = PathBuf::from("/resources").join(name);
        archive.add_named_file(path, true, Some(name)).unwrap();
        assert!(archive.entries.iter().any(|entry| entry.type_id == expected_type));
    }
    assert_eq!(
        archive
            .conflicting_named_file(&PathBuf::from("/resources/model.mdl"), true, Some("model.mdl"))
            .unwrap()
            .as_deref(),
        Some("model.mdl")
    );
    let different_type = PathBuf::from("/resources/model.dds");
    assert_eq!(
        archive.conflicting_named_file(&different_type, true, Some("model.dds")).unwrap(),
        None
    );
}

#[test]
fn add_file_reads_the_file_name_from_the_path() {
    let mut archive = Archive::new(ArchiveKind::Hak, ArchiveVersion::V1_0);
    assert_eq!(archive.add_file(PathBuf::from("/resources/Model.MDL"), true), Ok(false));
    assert_eq!(archive.entries[0].name, "model");
    assert_eq!(archive.entries[0].type_id, 0x07d2);
    assert!(archive.entries[0].is_new());
    assert_eq!(archive.add_file(PathBuf::from("/other/model.mdl"), true), Ok(true));
    assert_eq!(archive.entries.len(), 1);
    assert_eq!(
        archive.conflicting_filename(&PathBuf::from("/x/MODEL.mdl"), true).unwrap().as_deref(),
        Some("model.mdl")
    );
}

#[test]
fn adding_reports_each_problem_with_the_file() {
    let mut archive = Archive::new(ArchiveKind::Hak, ArchiveVersion::V1_0);
    let path = PathBuf::from("/resources/model.mdl");
    assert_eq!(archive.add_named_file(path.clone(), false, Some("model.mdl")), Err(ArchiveError::NotRegularFile));
    assert_eq!(archive.add_named_file(path.clone(), true, None), Err(ArchiveError::FileNameNotUtf8));
    assert_eq!(archive.add_named_file(path.clone(), true, Some("model")), Err(ArchiveError::NoExtension));
    assert_eq!(archive.add_named_file(path.clone(), true, Some("model.xyz")), Err(ArchiveError::UnknownExtension));
    assert_eq!(
        archive.add_named_file(path.clone(), true, Some("bad name.mdl")),
        Err(ArchiveError::InvalidName(16))
    );
    assert_eq!(
        archive.add_named_file(path.clone(), true, Some("a_name_longer_than_16.mdl")),
        Err(ArchiveError::InvalidName(16))
    );
    assert_eq!(archive.add_named_file(path, true, Some(".mdl")), Err(ArchiveError::InvalidName(16)));
    assert!(archive.entries.is_empty());
}

#[test]
fn v11_archives_take_longer_names() {
    let mut archive = Archive::new(ArchiveKind::Erf, ArchiveVersion::V1_1);
    let name = "a_name_longer_than_16.mdl";
    assert_eq!(archive.add_named_file(PathBuf::from(name), true, Some(name)), Ok(false));
    let bytes = written(&archive, &[b"abc"]);
    assert_eq!(&bytes[4..8], b"V1.1");
    let loaded = Archive::from_bytes(&bytes, PathBuf::from("x.erf"), Some(b"erf")).unwrap();
    assert_eq!(loaded.entries[0].name, "a_name_longer_than_16");
    assert_eq!(loaded.version, ArchiveVersion::V1_1);
    assert_eq!(loaded.kind, ArchiveKind::Erf);
}

#[test]
fn new_archives_describe_themselves() {
    let hak = Archive::new(ArchiveKind::Hak, ArchiveVersion::V1_0);
    assert_eq!(hak.description(), "Aurora Hak Explorer\nCreated with AHE");
    let module = Archive::new(ArchiveKind::Mod, ArchiveVersion::V1_0);
    assert_eq!(module.description(), "");
    assert!(module.entries.is_empty());
    assert_eq!(module.description_strref, u32::MAX);
    let mut text = Archive::new(ArchiveKind::Erf, ArchiveVersion::V1_0);
    text.set_description("ünïcode text".to_string());
    assert_eq!(text.description(), "ünïcode text");
}

#[test]
fn reading_sorts_entries_by_lowered_name_then_type() {
    let mut archive = Archive::new(ArchiveKind::Erf, ArchiveVersion::V1_0);
    for (name, type_id) in [("b", 10u16), ("A", 2002), ("a", 10), ("c", 1)] {
        archive.entries.push(Entry { name: name.into(), type_id, data: EntryData::Memory(vec![]) });
    }
    let bytes = written(&archive, &[b"", b"", b"", b""]);
    let loaded = Archive::from_bytes(&bytes, PathBuf::from("s.erf"), None).unwrap();
    let order: Vec<(String, u16)> = loaded.entries.iter().map(|e| (e.name.clone(), e.type_id)).collect();
    assert_eq!(
        order,
        vec![("a".to_string(), 10), ("A".to_string(), 2002), ("b".to_string(), 10), ("c".to_string(), 1)]
    );
}

#[test]
fn written_archives_read_back_entry_data() {
    let mut archive = Archive::new(ArchiveKind::Mod, ArchiveVersion::V1_0);
    for (name, type_id) in [("alpha", 2017u16), ("beta", 10), ("gamma", 2002)] {
        archive.entries.push(Entry { name: name.into(), type_id, data: EntryData::Memory(vec![]) });
    }
    let payloads: [&[u8]; 3] = [b"first", b"", b"third payload"];
    let bytes = written(&archive, &payloads);
    let loaded = Archive::from_bytes(&bytes, PathBuf::from("m.mod"), Some(b"mod")).unwrap();
    assert_eq!(loaded.kind, ArchiveKind::Mod);
    for (entry, payload) in loaded.entries.iter().zip(payloads.iter()) {
        assert_eq!(slice_of(&bytes, entry), *payload);
        assert!(!entry.is_new());
    }
    assert_eq!(loaded.description(), "");
    assert_eq!(loaded.description_strref, u32::MAX);
    assert_eq!(loaded.path, Some(PathBuf::from("m.mod")));
}

#[test]
fn saved_games_are_told_from_modules_by_extension() {
    let archive = Archive::new(ArchiveKind::Sav, ArchiveVersion::V1_0);
    let bytes = written(&archive, &[]);
    assert_eq!(&bytes[0..4], b"MOD ");
    let save = Archive::from_bytes(&bytes, PathBuf::from("game.SAV"), Some(b"SAV")).unwrap();
    assert_eq!(save.kind, ArchiveKind::Sav);
    let module = Archive::from_bytes(&bytes, PathBuf::from("game.mod"), Some(b"mod")).unwrap();
    assert_eq!(module.kind, ArchiveKind::Mod);
}

#[test]
fn header_errors_name_the_first_problem() {
    let archive = Archive::new(ArchiveKind::Hak, ArchiveVersion::V1_0);
    let good = written(&archive, &[]);
    let p = PathBuf::from("x.hak");
    let mut b = good.clone();
    b[0..4].copy_from_slice(b"XYZ ");
    assert_eq!(Archive::from_bytes(&b, p.clone(), None).unwrap_err(), ArchiveError::UnsupportedSignature);
    let mut b = good.clone();
    b[4..8].copy_from_slice(b"V2.0");
    assert_eq!(Archive::from_bytes(&b, p.clone(), None).unwrap_err(), ArchiveError::UnsupportedVersion);
    let mut b = good.clone();
    b[12..16].copy_from_slice(&(64 * 1024 * 1024 + 1u32).to_le_bytes());
    assert_eq!(Archive::from_bytes(&b, p.clone(), None).unwrap_err(), ArchiveError::LocalizedTableTooLarge);
    let mut b = good.clone();
    b[20..24].copy_from_slice(&1_000_000u32.to_le_bytes());
    assert_eq!(
        Archive::from_bytes(&b, p.clone(), None).unwrap_err(),
        ArchiveError::OutsideFile(Region::LocalizedStrings)
    );
    let mut b = good.clone();
    b[16..20].copy_from_slice(&5u32.to_le_bytes());
    assert_eq!(Archive::from_bytes(&b, p.clone(), None).unwrap_err(), ArchiveError::OutsideFile(Region::KeyList));
    let mut b = good.clone();
    b[164..168].copy_from_slice(&1000u32.to_le_bytes());
    assert_eq!(Archive::from_bytes(&b, p, None).unwrap_err(), ArchiveError::LocalizedStringExceedsTable);
    assert_eq!(ArchiveError::TooSmall.message(), "file is too small to be an ERF archive");
}

#[test]
fn resource_data_must_lie_inside_the_file() {
    let mut archive = Archive::new(ArchiveKind::Hak, ArchiveVersion::V1_0);
    archive.entries.push(Entry { name: "x".into(), type_id: 10, data: EntryData::Memory(vec![]) });
    let mut bytes = written(&archive, &[b"abcd"]);
    let len = bytes.len();
    bytes.truncate(len - 1);
    assert_eq!(
        Archive::from_bytes(&bytes, PathBuf::from("x.hak"), None).unwrap_err(),
        ArchiveError::OutsideFile(Region::ResourceData)
    );
}

#[test]
fn empty_names_are_rejected_when_reading() {
    let mut archive = Archive::new(ArchiveKind::Hak, ArchiveVersion::V1_0);
    archive.entries.push(Entry { name: "x".into(), type_id: 10, data: EntryData::Memory(vec![]) });
    let mut bytes = written(&archive, &[b""]);
    let key_offset = u32::from_le_bytes(bytes[24..28].try_into().unwrap()) as usize;
    bytes[key_offset] = b' ';
    assert_eq!(
        Archive::from_bytes(&bytes, PathBuf::from("x.hak"), None).unwrap_err(),
        ArchiveError::EmptyResourceName
    );
}

#[test]
fn names_that_do_not_fit_are_not_written() {
    let mut archive = Archive::new(ArchiveKind::Hak, ArchiveVersion::V1_0);
    archive.entries.push(Entry { name: "short".into(), type_id: 10, data: EntryData::Memory(vec![]) });
    archive.entries.push(Entry {
        name: "seventeen_letters".into(),
        type_id: 10,
        data: EntryData::Memory(vec![]),
    });
    assert_eq!(archive.index_bytes(&[0, 0], DAYS), Err(ArchiveError::NameTooLong(1, 16)));
}

#[test]
fn oversized_resources_are_not_written() {
    let mut archive = Archive::new(ArchiveKind::Hak, ArchiveVersion::V1_0);
    archive.entries.push(Entry { name: "big".into(), type_id: 10, data: EntryData::Memory(vec![]) });
    assert_eq!(archive.index_bytes(&[1u64 << 32], DAYS), Err(ArchiveError::ResourceExceeds4GiB));
    archive.entries.push(Entry { name: "next".into(), type_id: 10, data: EntryData::Memory(vec![]) });
    assert_eq!(archive.index_bytes(&[u32::MAX as u64, 10], DAYS), Err(ArchiveError::ArchiveExceeds4GiB));
}

#[test]
fn the_header_records_the_build_date() {
    let archive = Archive::new(ArchiveKind::Hak, ArchiveVersion::V1_0);
    let bytes = archive.index_bytes(&[], 365 + 365 + 365).unwrap();
    assert_eq!(u32::from_le_bytes(bytes[32..36].try_into().unwrap()), 72);
    assert_eq!(u32::from_le_bytes(bytes[36..40].try_into().unwrap()), 366);
    assert_eq!(u32::from_le_bytes(bytes[20..24].try_into().unwrap()), 160);
}

#[test]
fn leap_years_follow_the_gregorian_rules() {
    assert!(is_leap_year(2024));
    assert!(!is_leap_year(2023));
    assert!(!is_leap_year(1900));
    assert!(is_leap_year(2000));
    assert_eq!(erf_build_date(10_957), (100, 1));
}

#[test]
fn merging_replaces_matching_resources_and_appends_the_rest() {
    let mut base = Archive::new(ArchiveKind::Hak, ArchiveVersion::V1_0);
    base.add_named_file(PathBuf::from("a.mdl"), true, Some("a.mdl")).unwrap();
    base.add_named_file(PathBuf::from("b.mdl"), true, Some("b.mdl")).unwrap();
    let mut other = Archive::new(ArchiveKind::Hak, ArchiveVersion::V1_0);
    other.add_named_file(PathBuf::from("B.MDL"), true, Some("B.MDL")).unwrap();
    other.add_named_file(PathBuf::from("c.dds"), true, Some("c.dds")).unwrap();
    other.add_named_file(PathBuf::from("a.2da"), true, Some("a.2da")).unwrap();
    assert_eq!(base.merge(&other), (2, 1));
    let names: Vec<String> = base.entries.iter().map(|e| e.filename()).collect();
    assert_eq!(names, vec!["a.mdl", "a.2da", "b.mdl", "c.dds"]);
}

#[test]
fn entries_report_their_names_and_origin() {
    let entry = Entry { name: "cloak".into(), type_id: 2025, data: EntryData::Memory(vec![1]) };
    assert_eq!(entry.extension(), "uti");
    assert_eq!(entry.filename(), "cloak.uti");
    assert_eq!(entry.safe_filename().unwrap(), "cloak.uti");
    assert!(entry.is_new());
    let copy = entry.clone();
    assert_eq!(copy.name, "cloak");
    let unknown = Entry { name: "x".into(), type_id: 1234, data: EntryData::Memory(vec![]) };
    assert_eq!(unknown.filename(), "x.bin");
}

#[test]
fn kinds_and_versions_have_their_tags() {
    assert_eq!(&ArchiveKind::Hak.signature(), b"HAK ");
    assert_eq!(&ArchiveKind::Erf.signature(), b"ERF ");
    assert_eq!(&ArchiveKind::Sav.signature(), b"MOD ");
    assert_eq!(ArchiveKind::Sav.extension(), "sav");
    assert_eq!(ArchiveVersion::V1_0.label(), "V1.0 (NWN/EE)");
    assert_eq!(ArchiveVersion::V1_1.label(), "V1.1 (NWN2)");
    assert_eq!(&ArchiveVersion::V1_1.bytes(), b"V1.1");
    assert_eq!(ArchiveVersion::V1_0.name_len(), 16);
}

#[test]
fn resource_types_map_both_ways() {
    assert_eq!(type_for("mdl"), Some(0x07d2));
    assert_eq!(type_for("MTR"), Some(0x0818));
    assert_eq!(type_for("nope"), None);
    assert_eq!(extension_for(0x07e1), "2da");
    assert_eq!(extension_for(0x000a), "txt");
    assert_eq!(extension_for(9999), "key");
}

#[test]
fn descriptions_replace_invalid_utf8() {
    let mut archive = Archive::new(ArchiveKind::Erf, ArchiveVersion::V1_0);
    archive.localized[0].bytes = vec![b'a', 0xff, b'b'];
    assert_eq!(archive.description(), "a\u{FFFD}b");
}

#[test]
fn reading_needs_only_the_index() {
    let mut archive = Archive::new(ArchiveKind::Hak, ArchiveVersion::V1_0);
    for (name, type_id) in [("first", 10u16), ("second", 2017)] {
        archive.entries.push(Entry { name: name.into(), type_id, data: EntryData::Memory(vec![]) });
    }
    let bytes = written(&archive, &[b"some resource data", b"more data"]);
    let index_size = archive.index_bytes(&[18, 9], DAYS).unwrap().len();
    // The description record (8 + 36 bytes) lies between the header and the
    // key list; a header of 160 bytes, two keys of 24 bytes and two resource
    // list entries of 8 bytes make up the rest of the index.
    assert_eq!(index_size, 160 + 44 + 48 + 16);
    let needed = index_length(&bytes[..160], bytes.len() as u64) as usize;
    assert!(needed >= index_size);
    assert!(needed < bytes.len());
    let mut blanked = bytes.clone();
    for byte in &mut blanked[needed..] {
        *byte = 0;
    }
    let from_whole = Archive::from_bytes(&bytes, PathBuf::from("a.hak"), None).unwrap();
    let from_index = Archive::from_bytes(&blanked, PathBuf::from("a.hak"), None).unwrap();
    let names = |a: &Archive| a.entries.iter().map(|e| (e.name.clone(), e.type_id)).collect::<Vec<_>>();
    assert_eq!(names(&from_whole), names(&from_index));
    assert_eq!(from_whole.description(), from_index.description());
}

#[test]
fn short_files_are_read_whole() {
    assert_eq!(index_length(b"HAK V1.0", 8), 8);
    assert_eq!(index_length(&[0; 20], 500), 500);
    let mut head = vec![0u8; 160];
    head[24..28].copy_from_slice(&300u32.to_le_bytes());
    head[16..20].copy_from_slice(&2u32.to_le_bytes());
    assert_eq!(index_length(&head, 1000), 380);
    assert_eq!(index_length(&head, 350), 350);
}

#[test]
fn safe_file_names_are_single_components() {
    let dots = Entry { name: "..".into(), type_id: 10, data: EntryData::Memory(vec![]) };
    assert_eq!(dots.safe_filename(), Ok("...txt".to_string()));
    let unknown = Entry { name: "x".into(), type_id: 12345, data: EntryData::Memory(vec![]) };
    assert_eq!(unknown.safe_filename(), Ok("x.bin".to_string()));
    let escaping = Entry { name: "a/b".into(), type_id: 10, data: EntryData::Memory(vec![]) };
    assert_eq!(escaping.safe_filename(), Err(ArchiveError::UnsafeResourceName));
}

#[test]
fn sorting_many_entries_is_stable() {
    let mut entries = Vec::new();
    for i in 0..2000u32 {
        let name = format!("n{}", (2000 - i) % 37);
        let name = if i % 2 == 0 { name.to_uppercase() } else { name };
        entries.push(Entry { name, type_id: (i % 3) as u16, data: EntryData::Memory(vec![(i % 256) as u8, (i / 256) as u8]) });
    }
    let mut expected: Vec<(String, u16, Vec<u8>)> = entries
        .iter()
        .map(|e| match &e.data {
            EntryData::Memory(d) => (e.name.clone(), e.type_id, d.clone()),
            _ => unreachable!(),
        })
        .collect();
    expected.sort_by_key(|(name, type_id, _)| (name.to_ascii_lowercase(), *type_id));
    let sorted = sort_entry_vec(entries);
    let got: Vec<(String, u16, Vec<u8>)> = sorted
        .iter()
        .map(|e| match &e.data {
            EntryData::Memory(d) => (e.name.clone(), e.type_id, d.clone()),
            _ => unreachable!(),
        })
        .collect();
    assert_eq!(got, expected);
}
