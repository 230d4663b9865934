//! The reaction dispatcher's decision logic: an external reaction-added or
//! reaction-removed notification is resolved against the store to either
//! nothing (the message is not a selector, the payload kind is reserved, or
//! the emoji is not mapped) or one role mutation — a grant for an added
//! reaction, a revocation for a removed one — that the caller then issues to
//! the external member-role interface.

use vstd::prelude::*;

use crate::emoji::EmojiError;
use crate::emoji::EmojiView;
use crate::emoji::ReactionEmoji;
use crate::store::Container;
use crate::store::role_for_reaction;

verus! {

/// Whether a reaction was added to or removed from a message.
#[derive(Clone, Copy, Debug, PartialEq, Eq, Structural)]
pub enum ReactionChange {
    Added,
    Removed,
}

/// The role mutation to request from the external member-role interface.
#[derive(Clone, Copy, Debug, PartialEq, Eq, Structural)]
pub enum RoleAction {
    Grant,
    Revoke,
}

/// The action a reaction change asks for: adding grants, removing revokes.
pub open spec fn action_of(change: ReactionChange) -> RoleAction {
    match change {
        ReactionChange::Added => RoleAction::Grant,
        ReactionChange::Removed => RoleAction::Revoke,
    }
}

/// What a reaction event decides: nothing for an unbound message, a reserved
/// payload kind, or an unmapped emoji key; the missing-name error for a
/// nameless custom emoji on a bound message; otherwise exactly one role
/// mutation, on the first mapping whose key matches.
pub open spec fn dispatch_spec(
    messages: Map<u64, crate::store::MessageActions>,
    change: ReactionChange,
    message_id: u64,
    e: EmojiView,
) -> Result<Option<(u64, RoleAction)>, EmojiError> {
    if !messages.contains_key(message_id) {
        Ok(None)
    } else {
        match role_for_reaction(messages[message_id], e) {
            Err(er) => Err(er),
            Ok(None) => Ok(None),
            Ok(Some(role_id)) => Ok(Some((role_id, action_of(change)))),
        }
    }
}

/// Decides what a reaction event means: the bound message is looked up, the
/// reacted emoji is normalized to its key, and the first mapping with that
/// key names the role to grant (reaction added) or revoke (reaction removed).
/// The caller performs the returned mutation; a failure there is logged and
/// dropped, never retried.
pub fn dispatch_reaction(
    container: &Container,
    change: ReactionChange,
    message_id: u64,
    reaction: &ReactionEmoji,
) -> (r: Result<Option<(u64, RoleAction)>, EmojiError>)
    ensures
        r == dispatch_spec(container.messages@, change, message_id, reaction@),
{
    let actions = match container.get_message(message_id) {
        None => {
            return Ok(None);
        },
        Some(actions) => actions,
    };
    let action = match change {
        ReactionChange::Added => RoleAction::Grant,
        ReactionChange::Removed => RoleAction::Revoke,
    };
    match actions.get_role_from_emoji(reaction) {
        Err(er) => Err(er),
        Ok(None) => Ok(None),
        Ok(Some(role_id)) => Ok(Some((role_id, action))),
    }
}

} // verus!
