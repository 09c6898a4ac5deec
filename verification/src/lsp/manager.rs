//! Decisions of the per-language client manager.
use vstd::prelude::*;

verus! {

/// What the manager does when a client for a language is requested.
#[derive(Clone, Copy, PartialEq, Eq, Debug, Structural)]
pub enum ClientAction {
    /// Hand out the cached client.
    Reuse,
    /// Shut the cached client down and start a new one.
    Replace,
    /// Start a client (none is cached).
    Start,
}

/// A cached client is reused only while it is alive and serves the same
/// workspace root; a dead or foreign client is replaced; with none cached a
/// client is started.
pub fn client_action(cached: Option<(bool, bool)>) -> (res: ClientAction)
    ensures
        res == match cached {
            None => ClientAction::Start,
            Some((alive, same_root)) => if alive && same_root {
                ClientAction::Reuse
            } else {
                ClientAction::Replace
            },
        },
{
    match cached {
        None => ClientAction::Start,
        Some((alive, same_root)) => if alive && same_root {
            ClientAction::Reuse
        } else {
            ClientAction::Replace
        },
    }
}

} // verus!
