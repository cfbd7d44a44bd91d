//! The user interface's side of the channels to the network worker.

use vstd::prelude::*;
use crate::node::FromNetMsg;
use crate::node::ToNetMsg;

verus! {

/// Why a handle could not be used.
#[derive(Debug, Clone, Copy, PartialEq, Eq, Structural)]
pub enum SendError {
    /// The network worker is gone.
    Disconnected,
}

/// What a look at the channel from the network worker finds.
#[derive(Debug)]
pub enum Polled {
    /// The worker has said this.
    Message(FromNetMsg),
    /// The worker has said nothing.
    Empty,
    /// The worker is gone.
    Disconnected,
}

/// tries to read something from the nethandle if it has something to say.
/// returns Ok(Some(msg)) if it had something to say
/// returns Ok(None) if it didn't
/// Err(SendError::Disconnected) if the nethandle died
pub fn read(polled: Polled) -> (r: Result<Option<FromNetMsg>, SendError>)
    ensures
        r == match polled {
            Polled::Message(m) => Ok::<Option<FromNetMsg>, SendError>(Some(m)),
            Polled::Empty => Ok::<Option<FromNetMsg>, SendError>(None),
            Polled::Disconnected => Err::<Option<FromNetMsg>, SendError>(SendError::Disconnected),
        },
{
    match polled {
        Polled::Message(m) => Ok(Some(m)),
        Polled::Empty => Ok(None),
        Polled::Disconnected => Err(SendError::Disconnected),
    }
}

/// The request that sends `msg` to all other connected nodes.
pub fn send_message(msg: String) -> (r: ToNetMsg)
    ensures
        r == ToNetMsg::NewMsg(msg),
{
    ToNetMsg::NewMsg(msg)
}

/// What putting a request on the channel to the network worker comes to:
/// `delivered` tells whether the channel took it. A channel that does not has
/// lost its worker.
pub fn send_to_net(delivered: bool) -> (r: Result<(), SendError>)
    ensures
        r == if delivered {
            Ok::<(), SendError>(())
        } else {
            Err::<(), SendError>(SendError::Disconnected)
        },
{
    if delivered {
        Ok(())
    } else {
        Err(SendError::Disconnected)
    }
}

} // verus!
