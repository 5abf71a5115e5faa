use aurora_hak_explorer::xdnd::{
    after_grab_attempt, answer_selection, pack_coordinates, speaks_xdnd, ClientMessage, DragAtoms,
    DragSession, GrabStep, Release, SelectionAnswer, SelectionData, CURRENT_TIME, NO_WINDOW,
    STRING_ATOM,
};

fn atoms() -> DragAtoms {
    DragAtoms {
        xdnd_aware: 300,
        xdnd_enter: 301,
        xdnd_leave: 302,
        xdnd_position: 303,
        xdnd_status: 304,
        xdnd_drop: 305,
        xdnd_finished: 306,
        xdnd_selection: 307,
        xdnd_action_copy: 308,
        text_uri_list: 309,
        targets: 310,
        utf8_string: 311,
    }
}

#[test]
fn coordinates_pack_x_high_and_y_low() {
    assert_eq!(pack_coordinates(1, 2), 0x0001_0002);
    assert_eq!(pack_coordinates(-1, 0), 0xffff_0000);
    assert_eq!(pack_coordinates(0, -2), 0x0000_fffe);
    assert_eq!(pack_coordinates(640, 480), (640 << 16) | 480);
}

#[test]
fn entering_a_window_sends_enter_then_position() {
    let atoms = atoms();
    let mut session = DragSession::new(9);
    let messages = session.on_motion(&atoms, 7, 10, 20, 100);
    assert_eq!(
        messages,
        vec![
            ClientMessage { destination: 7, message_type: 301, data: [9, 5 << 24, 309, 0, 0] },
            ClientMessage {
                destination: 7,
                message_type: 303,
                data: [9, 0, (10 << 16) | 20, 100, 308],
            },
        ]
    );
    assert_eq!(session, DragSession { source: 9, target: 7, accepted: false, last_time: 100 });
}

#[test]
fn moving_within_a_window_keeps_its_answer() {
    let atoms = atoms();
    let mut session = DragSession::new(9);
    session.on_motion(&atoms, 7, 10, 20, 100);
    session.on_client_message(&atoms, 304, 1);
    let messages = session.on_motion(&atoms, 7, 11, 21, 101);
    assert_eq!(messages.len(), 1);
    assert_eq!(messages[0].message_type, 303);
    assert!(session.accepted);
}

#[test]
fn switching_windows_leaves_the_old_one_first() {
    let atoms = atoms();
    let mut session = DragSession::new(9);
    session.on_motion(&atoms, 7, 10, 20, 100);
    session.on_client_message(&atoms, 304, 1);
    let messages = session.on_motion(&atoms, 8, 30, 40, 110);
    assert_eq!(messages.len(), 3);
    assert_eq!(messages[0], ClientMessage { destination: 7, message_type: 302, data: [9, 0, 0, 0, 0] });
    assert_eq!(messages[1].destination, 8);
    assert_eq!(messages[1].message_type, 301);
    assert_eq!(messages[2].message_type, 303);
    assert!(!session.accepted);
}

#[test]
fn moving_off_every_target_only_leaves() {
    let atoms = atoms();
    let mut session = DragSession::new(9);
    session.on_motion(&atoms, 7, 10, 20, 100);
    let messages = session.on_motion(&atoms, NO_WINDOW, 0, 0, 120);
    assert_eq!(messages, vec![ClientMessage { destination: 7, message_type: 302, data: [9, 0, 0, 0, 0] }]);
    assert_eq!(session.target, NO_WINDOW);
}

#[test]
fn status_reads_the_lowest_bit_only() {
    let atoms = atoms();
    let mut session = DragSession::new(9);
    session.on_motion(&atoms, 7, 10, 20, 100);
    session.on_client_message(&atoms, 304, 3);
    assert!(session.accepted);
    session.on_client_message(&atoms, 304, 2);
    assert!(!session.accepted);
    session.on_client_message(&atoms, 999, 1);
    assert!(!session.accepted);
}

#[test]
fn release_outcomes() {
    let atoms = atoms();
    let mut session = DragSession::new(9);
    assert_eq!(session.on_release(&atoms, 500), Release::Abandon);
    session.on_motion(&atoms, 7, 10, 20, 100);
    assert_eq!(
        session.on_release(&atoms, 500),
        Release::Leave(ClientMessage { destination: 7, message_type: 302, data: [9, 0, 0, 0, 0] })
    );
    session.on_client_message(&atoms, 304, 1);
    assert_eq!(
        session.on_release(&atoms, 500),
        Release::Drop(ClientMessage { destination: 7, message_type: 305, data: [9, 0, 500, 0, 0] })
    );
    assert_eq!(
        session.on_release(&atoms, CURRENT_TIME),
        Release::Drop(ClientMessage { destination: 7, message_type: 305, data: [9, 0, 100, 0, 0] })
    );
}

#[test]
fn selection_requests_are_answered() {
    let atoms = atoms();
    assert_eq!(
        answer_selection(&atoms, 310, 50),
        SelectionAnswer {
            property: 50,
            data: SelectionData::Targets([310, 309, 311, STRING_ATOM]),
            notify_property: 50,
        }
    );
    for target in [309, 311, STRING_ATOM] {
        assert_eq!(
            answer_selection(&atoms, target, 50),
            SelectionAnswer { property: 50, data: SelectionData::UriList, notify_property: 50 }
        );
    }
    assert_eq!(
        answer_selection(&atoms, 309, NO_WINDOW),
        SelectionAnswer { property: 309, data: SelectionData::UriList, notify_property: 309 }
    );
    assert_eq!(
        answer_selection(&atoms, 777, 50),
        SelectionAnswer { property: 50, data: SelectionData::Refused, notify_property: NO_WINDOW }
    );
}

#[test]
fn the_grab_is_tried_twenty_times() {
    assert_eq!(after_grab_attempt(0, true), GrabStep::Grabbed);
    assert_eq!(after_grab_attempt(19, true), GrabStep::Grabbed);
    assert_eq!(after_grab_attempt(0, false), GrabStep::Retry);
    assert_eq!(after_grab_attempt(18, false), GrabStep::Retry);
    assert_eq!(after_grab_attempt(19, false), GrabStep::GiveUp);
}

#[test]
fn awareness_needs_a_non_empty_32_bit_property() {
    assert!(speaks_xdnd(32, 1));
    assert!(!speaks_xdnd(32, 0));
    assert!(!speaks_xdnd(8, 1));
}
