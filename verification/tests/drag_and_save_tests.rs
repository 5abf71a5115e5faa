use aurora_hak_explorer::drag::{pack_pointer_position, pointer_position, uri_list, NO_POINTER_POSITION};
use aurora_hak_explorer::save_file::{
    decode_path, encode_path, is_recovery_record_name_text, is_save_file_name_text,
    should_read_record, should_remove_save_file,
};

#[test]
fn path_encoding_round_trips() {
    let path = b"/tmp/.ahe-save-roundtrip.tmp".to_vec();
    assert_eq!(decode_path(encode_path(&path)), Some(path));
}

#[test]
fn empty_records_name_no_path() {
    assert_eq!(decode_path(Vec::new()), None);
}

#[test]
fn save_file_names_are_recognised() {
    assert!(is_save_file_name_text(".ahe-save-x1.tmp"));
    assert!(!is_save_file_name_text(".ahe-save-.tmp"));
    assert!(!is_save_file_name_text("important.hak"));
    assert!(!is_save_file_name_text(".ahe-save-x1.hak"));
    assert!(is_recovery_record_name_text("ahe-save-recovery-abc"));
    assert!(!is_recovery_record_name_text("ahe-save-recovery-"));
    assert!(!is_recovery_record_name_text("other"));
}

#[test]
fn uri_lists_escape_reserved_bytes() {
    let list = uri_list(&[b"/tmp/first archive.hak".to_vec(), b"/a~b_c".to_vec()]);
    assert_eq!(list, b"file:///tmp/first%20archive.hak\r\nfile:///a~b_c\r\n".to_vec());
    assert_eq!(uri_list(&[vec![0xff, b'%']]), b"file://%FF%25\r\n".to_vec());
}

#[test]
fn pointer_positions_round_trip() {
    assert_eq!(pointer_position(NO_POINTER_POSITION), None);
    for (x, y) in [(0, 0), (-5, 7), (1920, -1), (i32::MAX, i32::MIN)] {
        assert_eq!(pointer_position(pack_pointer_position(x, y)), Some((x, y)));
    }
    assert_eq!(pack_pointer_position(i32::MIN, 0), NO_POINTER_POSITION);
}

#[test]
fn only_small_plain_records_are_read() {
    assert!(should_read_record(true, true, false, 65_536));
    assert!(!should_read_record(true, true, false, 65_537));
    assert!(!should_read_record(false, true, false, 10));
    assert!(!should_read_record(true, false, false, 10));
    assert!(!should_read_record(true, true, true, 10));
}

#[test]
fn only_save_files_are_removed() {
    assert!(should_remove_save_file(true, Some(".ahe-save-x1.tmp"), true, false));
    assert!(!should_remove_save_file(false, Some(".ahe-save-x1.tmp"), true, false));
    assert!(!should_remove_save_file(true, Some("important.hak"), true, false));
    assert!(!should_remove_save_file(true, None, true, false));
    assert!(!should_remove_save_file(true, Some(".ahe-save-x1.tmp"), false, false));
    assert!(!should_remove_save_file(true, Some(".ahe-save-x1.tmp"), true, true));
}
