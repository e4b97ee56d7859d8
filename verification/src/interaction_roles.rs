//! Self-assignable role sets: a named message whose reactions or buttons
//! grant roles, each choice mapping to one role.

use vstd::prelude::*;
use crate::ids::{ChannelId, GuildId, MessageId, RoleId};

verus! {

/// One self-assignable role set, anchored to the message members interact
/// with.
#[derive(Debug, Clone)]
pub struct InteractionRole {
    pub guild_id: GuildId,
    pub name: String,
    pub description: Option<String>,
    pub channel_id: ChannelId,
    pub message_id: MessageId,
    pub exclusive: bool,
    pub choices: Vec<InteractionChoice>,
}

/// One choice of a role set.
#[derive(Debug, Clone)]
pub struct InteractionChoice {
    pub guild_id: GuildId,
    pub choice: String,
    pub emoji: Option<String>,
    pub role_id: RoleId,
}

} // verus!
