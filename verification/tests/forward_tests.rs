use aurora_hak_explorer::forward::{read_paths, write_paths, MessageError, read_progress, Progress};

#[test]
fn path_messages_round_trip() {
    let expected = vec![b"/tmp/first archive.hak".to_vec(), b"/tmp/second.hak".to_vec()];
    let message = write_paths(&expected).unwrap();
    assert_eq!(read_paths(&message).unwrap(), expected);
}

#[test]
fn path_message_rejects_excessive_count() {
    let message = 1_025_u32.to_le_bytes();
    assert!(read_paths(&message).is_err());
}

#[test]
fn path_messages_have_a_fixed_layout() {
    let message = write_paths(&[b"ab".to_vec()]).unwrap();
    assert_eq!(message, vec![1, 0, 0, 0, 2, 0, 0, 0, b'a', b'b']);
    assert_eq!(write_paths(&[]).unwrap(), vec![0, 0, 0, 0]);
}

#[test]
fn truncated_or_oversized_messages_are_rejected() {
    assert_eq!(read_paths(&[1, 0]), Err(MessageError::UnexpectedEnd));
    assert_eq!(read_paths(&[1, 0, 0, 0, 5, 0, 0, 0, b'a']), Err(MessageError::UnexpectedEnd));
    let long = (1_048_577u32).to_le_bytes();
    let mut message = vec![1, 0, 0, 0];
    message.extend_from_slice(&long);
    assert_eq!(read_paths(&message), Err(MessageError::ForwardedPathTooLong));
    assert_eq!(read_paths(&1_025u32.to_le_bytes()), Err(MessageError::TooManyForwardedPaths));
    assert_eq!(MessageError::TooManyForwardedPaths.message(), "too many forwarded paths");
}

#[test]
fn bytes_after_a_message_are_ignored() {
    let mut message = write_paths(&[b"/x".to_vec()]).unwrap();
    message.extend_from_slice(b"trailing");
    assert_eq!(read_paths(&message).unwrap(), vec![b"/x".to_vec()]);
}

#[test]
fn progress_tells_how_much_more_a_message_needs() {
    let paths = vec![b"/a".to_vec(), b"/bcd".to_vec()];
    let message = write_paths(&paths).unwrap();
    assert_eq!(message.len(), 4 + 4 + 2 + 4 + 4);
    assert_eq!(read_progress(&[]), Ok(Progress::Need(4)));
    assert_eq!(read_progress(&message[..2]), Ok(Progress::Need(2)));
    assert_eq!(read_progress(&message[..4]), Ok(Progress::Need(4)));
    assert_eq!(read_progress(&message[..8]), Ok(Progress::Need(2)));
    assert_eq!(read_progress(&message[..10]), Ok(Progress::Need(4)));
    assert_eq!(read_progress(&message[..14]), Ok(Progress::Need(4)));
    let mut with_rest = message.clone();
    with_rest.extend_from_slice(b"trailing");
    assert_eq!(read_progress(&with_rest), Ok(Progress::Complete(message.len() as u64)));
    assert_eq!(read_progress(&1_025u32.to_le_bytes()), Err(MessageError::TooManyForwardedPaths));
    let mut long = 1u32.to_le_bytes().to_vec();
    long.extend_from_slice(&(1_048_577u32).to_le_bytes());
    assert_eq!(read_progress(&long), Err(MessageError::ForwardedPathTooLong));
}
