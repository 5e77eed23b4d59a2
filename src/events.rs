//! Forwarding the engine's events to the user interface: which channel each
//! event goes to, and what the forwarding loop does with what it received.
use vstd::prelude::*;
use crate::text::to_owned_text;

verus! {

/// An event of the engine, with its payload already in plain text.
#[derive(Debug, Clone, PartialEq, Eq)]
pub enum EngineEvent {
    ConfigUpdated { agent_id: String, key: String, value_json: String },
    Error { agent_id: String, message: String },
    Input { agent_id: String, port: String },
    SpecUpdated { agent_id: String },
    /// Anything the interface does not show.
    Other,
}

/// What the forwarding loop received from the engine's broadcast channel.
#[derive(Debug, Clone, PartialEq, Eq)]
pub enum Received {
    Event(EngineEvent),
    /// The loop fell behind and this many events were dropped.
    Lagged(u64),
    Closed,
}

/// What the forwarding loop does next.
#[derive(Debug, Clone, PartialEq, Eq)]
pub enum BridgeAction {
    /// Emit the event on this channel.
    Forward(String, EngineEvent),
    /// Nothing to emit; keep listening.
    Skip,
    /// Log that this many events were dropped; keep listening.
    WarnLagged(u64),
    /// The channel closed: end the loop.
    Stop,
}

/// The interface channel of an event, if it has one.
pub open spec fn channel_of(e: EngineEvent) -> Option<Seq<char>> {
    match e {
        EngineEvent::ConfigUpdated { .. } => Some("mak:agent_config_updated"@),
        EngineEvent::Error { .. } => Some("mak:agent_error"@),
        EngineEvent::Input { .. } => Some("mak:agent_in"@),
        EngineEvent::SpecUpdated { .. } => Some("mak:agent_spec_updated"@),
        EngineEvent::Other => None,
    }
}

/// The channel that `event` is emitted on, if any.
pub fn event_channel(event: &EngineEvent) -> (r: Option<String>)
    ensures
        match r {
            Some(c) => channel_of(*event) == Some(c@),
            None => channel_of(*event) is None,
        },
{
    match event {
        EngineEvent::ConfigUpdated { .. } => Some(to_owned_text("mak:agent_config_updated")),
        EngineEvent::Error { .. } => Some(to_owned_text("mak:agent_error")),
        EngineEvent::Input { .. } => Some(to_owned_text("mak:agent_in")),
        EngineEvent::SpecUpdated { .. } => Some(to_owned_text("mak:agent_spec_updated")),
        EngineEvent::Other => None,
    }
}

/// The forwarding loop's decision for one receive: forward an event on its
/// channel, skip one without a channel, warn on a lag and go on, stop when
/// the channel is closed.
pub fn handle_event(received: Received) -> (r: BridgeAction)
    ensures
        match received {
            Received::Event(e) => match channel_of(e) {
                Some(c) => r matches BridgeAction::Forward(ch, ev) && ch@ == c && ev == e,
                None => r == BridgeAction::Skip,
            },
            Received::Lagged(n) => r == BridgeAction::WarnLagged(n),
            Received::Closed => r == BridgeAction::Stop,
        },
{
    match received {
        Received::Event(e) => match event_channel(&e) {
            Some(c) => BridgeAction::Forward(c, e),
            None => BridgeAction::Skip,
        },
        Received::Lagged(n) => BridgeAction::WarnLagged(n),
        Received::Closed => BridgeAction::Stop,
    }
}

} // verus!
