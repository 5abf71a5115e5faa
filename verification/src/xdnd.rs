//! The decisions of an XDND drag source that offers `text/uri-list`.
//!
//! The X11 connection itself (reading events, sending messages, writing
//! window properties) lives with the caller.  It hands each event to a
//! [`DragSession`] and performs the messages and replies that come back.

use vstd::prelude::*;

verus! {

/// The X11 value meaning "no window" (and "no atom").
pub const NO_WINDOW: u32 = 0;

/// The X11 value meaning "the current server time".
pub const CURRENT_TIME: u32 = 0;

/// The XDND protocol version that the source speaks.
pub const XDND_VERSION: u32 = 5;

/// The predefined X11 atom `STRING`.
pub const STRING_ATOM: u32 = 31;

/// The atoms that the drag source uses, as interned on its connection.
#[derive(Clone, Copy, Debug)]
pub struct DragAtoms {
    pub xdnd_aware: u32,
    pub xdnd_enter: u32,
    pub xdnd_leave: u32,
    pub xdnd_position: u32,
    pub xdnd_status: u32,
    pub xdnd_drop: u32,
    pub xdnd_finished: u32,
    pub xdnd_selection: u32,
    pub xdnd_action_copy: u32,
    pub text_uri_list: u32,
    pub targets: u32,
    pub utf8_string: u32,
}

/// A 32-bit client message to send to `destination`.
#[derive(Clone, Copy, Debug, PartialEq, Eq)]
pub struct ClientMessage {
    pub destination: u32,
    pub message_type: u32,
    pub data: [u32; 5],
}

/// The state of one drag: the helper window that is the source, the
/// window under the pointer that speaks XDND (or none), whether that
/// window last said it would accept the drop, and the time of the last
/// pointer motion.
#[derive(Clone, Copy, Debug, PartialEq, Eq, Structural)]
pub struct DragSession {
    pub source: u32,
    pub target: u32,
    pub accepted: bool,
    pub last_time: u32,
}

/// `XdndLeave` from `source` to `target`.
pub open spec fn leave_message(atoms: DragAtoms, source: u32, target: u32) -> ClientMessage {
    ClientMessage { destination: target, message_type: atoms.xdnd_leave, data: [source, 0, 0, 0, 0] }
}

/// `XdndEnter` from `source` to `target`, offering `text/uri-list` only.
pub open spec fn enter_message(atoms: DragAtoms, source: u32, target: u32) -> ClientMessage {
    ClientMessage {
        destination: target,
        message_type: atoms.xdnd_enter,
        data: [source, (XDND_VERSION * 0x100_0000) as u32, atoms.text_uri_list, 0, 0],
    }
}

/// Root coordinates packed as XDND carries them: x in the high 16 bits,
/// y in the low 16 bits, each as its 16-bit two's complement.
pub open spec fn packed_coordinates(x: i16, y: i16) -> u32 {
    ((x as u16) as int * 0x1_0000 + (y as u16) as int) as u32
}

/// `XdndPosition` from `source` to `target`, asking for a copy.
pub open spec fn position_message(
    atoms: DragAtoms,
    source: u32,
    target: u32,
    x: i16,
    y: i16,
    time: u32,
) -> ClientMessage {
    ClientMessage {
        destination: target,
        message_type: atoms.xdnd_position,
        data: [source, 0, packed_coordinates(x, y), time, atoms.xdnd_action_copy],
    }
}

/// `XdndDrop` from `source` to `target` at `time`.
pub open spec fn drop_message(atoms: DragAtoms, source: u32, target: u32, time: u32) -> ClientMessage {
    ClientMessage { destination: target, message_type: atoms.xdnd_drop, data: [source, 0, time, 0, 0] }
}

/// What the session sends when the pointer moves over `next` (the deepest
/// window there that speaks XDND, or none): leave the old target and enter
/// the new one when they differ, then tell the target where the pointer is.
pub open spec fn motion_messages(
    s: DragSession,
    atoms: DragAtoms,
    next: u32,
    x: i16,
    y: i16,
    time: u32,
) -> Seq<ClientMessage> {
    let changed = next != s.target;
    let leave = if changed && s.target != NO_WINDOW {
        seq![leave_message(atoms, s.source, s.target)]
    } else {
        Seq::empty()
    };
    let enter = if changed && next != NO_WINDOW {
        seq![enter_message(atoms, s.source, next)]
    } else {
        Seq::empty()
    };
    let position = if next != NO_WINDOW {
        seq![position_message(atoms, s.source, next, x, y, time)]
    } else {
        Seq::empty()
    };
    leave + enter + position
}

/// The session after the pointer moved over `next` at `time`: a new target
/// has not accepted anything yet.
pub open spec fn after_motion(s: DragSession, next: u32, time: u32) -> DragSession {
    DragSession {
        source: s.source,
        target: next,
        accepted: if next != s.target {
            false
        } else {
            s.accepted
        },
        last_time: time,
    }
}

/// What happens when the mouse button is released.
#[derive(Clone, Copy, Debug, PartialEq, Eq)]
pub enum Release {
    /// There is no target: nothing to send.
    Abandon,
    /// The target did not accept the drop: tell it the drag left.
    Leave(ClientMessage),
    /// The target accepted: drop on it, then serve its requests until it
    /// says it has finished.
    Drop(ClientMessage),
}

/// The outcome of a release at `time` (`CURRENT_TIME` when the server gave
/// none, in which case the time of the last motion stands for it).
pub open spec fn release_outcome(s: DragSession, atoms: DragAtoms, time: u32) -> Release {
    if s.target == NO_WINDOW {
        Release::Abandon
    } else if !s.accepted {
        Release::Leave(leave_message(atoms, s.source, s.target))
    } else {
        let when = if time == CURRENT_TIME {
            s.last_time
        } else {
            time
        };
        Release::Drop(drop_message(atoms, s.source, s.target, when))
    }
}

/// What to write into the requestor's property in answer to a selection request.
#[derive(Clone, Copy, Debug, PartialEq, Eq)]
pub enum SelectionData {
    /// The list of targets offered, as 32-bit atoms of type `ATOM`.
    Targets([u32; 4]),
    /// The `text/uri-list` bytes, as 8-bit data of the requested type.
    UriList,
    /// Nothing: the requested target is not offered.
    Refused,
}

/// The answer to a selection request: the property to write, what to write
/// there, and the property that the `SelectionNotify` names.
#[derive(Clone, Copy, Debug, PartialEq, Eq)]
pub struct SelectionAnswer {
    pub property: u32,
    pub data: SelectionData,
    pub notify_property: u32,
}

/// The targets the source offers: `TARGETS`, `text/uri-list`,
/// `UTF8_STRING` and `STRING`.
pub open spec fn offered_targets(atoms: DragAtoms) -> [u32; 4] {
    [atoms.targets, atoms.text_uri_list, atoms.utf8_string, STRING_ATOM]
}

/// The answer to a request for `target` into `property` (an old client
/// that names no property gets the target's name as the property).
pub open spec fn selection_answer(atoms: DragAtoms, target: u32, property: u32) -> SelectionAnswer {
    let into = if property == NO_WINDOW {
        target
    } else {
        property
    };
    if target == atoms.targets {
        SelectionAnswer { property: into, data: SelectionData::Targets(offered_targets(atoms)), notify_property: into }
    } else if target == atoms.text_uri_list || target == atoms.utf8_string || target == STRING_ATOM {
        SelectionAnswer { property: into, data: SelectionData::UriList, notify_property: into }
    } else {
        SelectionAnswer { property: into, data: SelectionData::Refused, notify_property: NO_WINDOW }
    }
}

/// How many times the source tries to take the pointer grab.
pub const GRAB_ATTEMPTS: u32 = 20;

/// What follows one try to take the pointer grab.
#[derive(Clone, Copy, Debug, PartialEq, Eq, Structural)]
pub enum GrabStep {
    /// The grab is taken: the drag goes on.
    Grabbed,
    /// Wait briefly and try again.
    Retry,
    /// Wait briefly, then give the drag up: the desktop keeps the pointer.
    GiveUp,
}

/// What follows try number `attempt` (counted from 0) to take the grab.
pub open spec fn grab_step(attempt: u32, succeeded: bool) -> GrabStep {
    if succeeded {
        GrabStep::Grabbed
    } else if attempt + 1 < GRAB_ATTEMPTS {
        GrabStep::Retry
    } else {
        GrabStep::GiveUp
    }
}

/// What follows try number `attempt` (counted from 0) to take the pointer grab.
pub fn after_grab_attempt(attempt: u32, succeeded: bool) -> (r: GrabStep)
    ensures
        r == grab_step(attempt, succeeded),
{
    if succeeded {
        GrabStep::Grabbed
    } else if attempt < GRAB_ATTEMPTS - 1 {
        GrabStep::Retry
    } else {
        GrabStep::GiveUp
    }
}

/// A window speaks XDND when its `XdndAware` property is a non-empty list
/// of 32-bit values.
pub open spec fn is_aware(format: u8, value_len: u32) -> bool {
    format == 32 && value_len > 0
}

/// Whether a window whose `XdndAware` property has this format and length speaks XDND.
pub fn speaks_xdnd(format: u8, value_len: u32) -> (r: bool)
    ensures
        r == is_aware(format, value_len),
{
    format == 32 && value_len > 0
}

/// How long, in seconds, the source serves a target after dropping on it
/// while waiting for `XdndFinished`.
pub const FINISH_WAIT_SECONDS: u64 = 15;

/// A window that the pointer has just moved onto has not accepted the
/// drop: releasing the button right after that motion never drops on it,
/// whatever the time of the release.
pub proof fn lemma_no_drop_before_acceptance(
    s: DragSession,
    atoms: DragAtoms,
    next: u32,
    motion_time: u32,
    release_time: u32,
)
    requires
        next != s.target,
    ensures
        !(release_outcome(after_motion(s, next, motion_time), atoms, release_time) is Drop),
{
}

/// Every message that a motion produces goes to the window the pointer
/// left or to the window it is now over, and comes from the session's source.
pub proof fn lemma_motion_messages_addressed(
    s: DragSession,
    atoms: DragAtoms,
    next: u32,
    x: i16,
    y: i16,
    time: u32,
)
    ensures
        forall|i: int|
            0 <= i < motion_messages(s, atoms, next, x, y, time).len() ==> {
                let m = #[trigger] motion_messages(s, atoms, next, x, y, time)[i];
                &&& m.destination == s.target || m.destination == next
                &&& m.destination != NO_WINDOW
                &&& m.data[0] == s.source
            },
{
}

/// The root coordinates packed for `XdndPosition`.
pub fn pack_coordinates(x: i16, y: i16) -> (r: u32)
    ensures
        r == packed_coordinates(x, y),
{
    let r = ((x as u16 as u32) << 16u32) | (y as u16 as u32);
    assert(((x as u16 as u32) << 16u32) | (y as u16 as u32) == ((x as u16) as int * 0x1_0000 + (
    y as u16) as int) as u32) by (bit_vector);
    r
}

impl DragSession {
    /// A drag from `source` that is over no target yet.
    pub fn new(source: u32) -> (r: DragSession)
        ensures
            r == (DragSession { source, target: NO_WINDOW, accepted: false, last_time: CURRENT_TIME }),
    {
        DragSession { source, target: NO_WINDOW, accepted: false, last_time: CURRENT_TIME }
    }

    /// The pointer moved to root coordinates (`x`, `y`) at `time`, over
    /// `next`; returns the messages to send, in order.
    pub fn on_motion(&mut self, atoms: &DragAtoms, next: u32, x: i16, y: i16, time: u32) -> (r: Vec<
        ClientMessage,
    >)
        ensures
            r@ == motion_messages(*old(self), *atoms, next, x, y, time),
            *final(self) == after_motion(*old(self), next, time),
    {
        let mut out: Vec<ClientMessage> = Vec::new();
        self.last_time = time;
        if next != self.target {
            if self.target != NO_WINDOW {
                out.push(
                    ClientMessage {
                        destination: self.target,
                        message_type: atoms.xdnd_leave,
                        data: [self.source, 0, 0, 0, 0],
                    },
                );
            }
            self.target = next;
            self.accepted = false;
            if next != NO_WINDOW {
                out.push(
                    ClientMessage {
                        destination: next,
                        message_type: atoms.xdnd_enter,
                        data: [self.source, 0x500_0000, atoms.text_uri_list, 0, 0],
                    },
                );
            }
        }
        if next != NO_WINDOW {
            let coordinates = pack_coordinates(x, y);
            out.push(
                ClientMessage {
                    destination: next,
                    message_type: atoms.xdnd_position,
                    data: [self.source, 0, coordinates, time, atoms.xdnd_action_copy],
                },
            );
        }
        assert(out@ =~= motion_messages(*old(self), *atoms, next, x, y, time));
        out
    }

    /// A client message of `message_type` arrived, whose second data word
    /// is `flags`: an `XdndStatus` says in its lowest bit whether the
    /// target will accept the drop.  Other messages change nothing.
    pub fn on_client_message(&mut self, atoms: &DragAtoms, message_type: u32, flags: u32)
        ensures
            *final(self) == (if message_type == atoms.xdnd_status {
                DragSession { accepted: flags % 2 == 1, ..*old(self) }
            } else {
                *old(self)
            }),
    {
        if message_type == atoms.xdnd_status {
            assert((flags & 1u32 != 0u32) == (flags % 2 == 1)) by (bit_vector);
            self.accepted = flags & 1 != 0;
        }
    }

    /// The mouse button was released at `time`.
    pub fn on_release(&self, atoms: &DragAtoms, time: u32) -> (r: Release)
        ensures
            r == release_outcome(*self, *atoms, time),
    {
        if self.target == NO_WINDOW {
            Release::Abandon
        } else if !self.accepted {
            Release::Leave(
                ClientMessage {
                    destination: self.target,
                    message_type: atoms.xdnd_leave,
                    data: [self.source, 0, 0, 0, 0],
                },
            )
        } else {
            let when = if time == CURRENT_TIME {
                self.last_time
            } else {
                time
            };
            Release::Drop(
                ClientMessage {
                    destination: self.target,
                    message_type: atoms.xdnd_drop,
                    data: [self.source, 0, when, 0, 0],
                },
            )
        }
    }
}

/// The answer to a selection request for `target` into `property`.
pub fn answer_selection(atoms: &DragAtoms, target: u32, property: u32) -> (r: SelectionAnswer)
    ensures
        r == selection_answer(*atoms, target, property),
{
    let into = if property == NO_WINDOW {
        target
    } else {
        property
    };
    if target == atoms.targets {
        SelectionAnswer {
            property: into,
            data: SelectionData::Targets(
                [atoms.targets, atoms.text_uri_list, atoms.utf8_string, STRING_ATOM],
            ),
            notify_property: into,
        }
    } else if target == atoms.text_uri_list || target == atoms.utf8_string || target
        == STRING_ATOM {
        SelectionAnswer { property: into, data: SelectionData::UriList, notify_property: into }
    } else {
        SelectionAnswer { property: into, data: SelectionData::Refused, notify_property: NO_WINDOW }
    }
}

} // verus!
