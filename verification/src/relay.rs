use vstd::prelude::*;

verus! {

/// What happened on one side of a relayed connection pair.
pub enum RelayEvent {
    /// A read gave these bytes.
    Data(Vec<u8>),
    /// The side closed its connection (a read gave 0 bytes).
    Closed,
    /// Nothing to read yet.
    WouldBlock,
    /// A read failed.
    Failed,
    /// Writing forwarded bytes to the other side failed.
    WriteFailed,
}

/// What the relay does next.
pub enum RelayAction {
    /// Write `data` to the server (when `to_server`) or to the client.
    Forward { to_server: bool, data: Vec<u8> },
    /// Close both connections of the pair and forget them.
    ClosePair,
    /// Nothing.
    Nothing,
}

/// Decides what a forwarding server does with what happened on one side of a
/// client–server pair (`from_client` tells which side): data goes on to the
/// other side; a closed side, a failed read or a failed write closes the
/// pair; a read that would block changes nothing.
pub fn relay_step(from_client: bool, event: RelayEvent) -> (action: RelayAction)
    ensures
        match event {
            RelayEvent::Data(d) => action matches RelayAction::Forward { to_server, data }
                && to_server == from_client && data@ == d@,
            RelayEvent::WouldBlock => action is Nothing,
            _ => action is ClosePair,
        },
{
    match event {
        RelayEvent::Data(d) => RelayAction::Forward { to_server: from_client, data: d },
        RelayEvent::WouldBlock => RelayAction::Nothing,
        RelayEvent::Closed => RelayAction::ClosePair,
        RelayEvent::Failed => RelayAction::ClosePair,
        RelayEvent::WriteFailed => RelayAction::ClosePair,
    }
}

} // verus!
