use reaction_roles::dispatch::dispatch_reaction;
use reaction_roles::dispatch::ReactionChange;
use reaction_roles::dispatch::RoleAction;
use reaction_roles::emoji::EmojiError;
use reaction_roles::emoji::ReactionEmoji;
use reaction_roles::store::Container;
use reaction_roles::store::EmojiRoleMapping;
use reaction_roles::store::MessageActions;

fn container_with_binding() -> Container {
    let mut c = Container::new();
    c.bind_message(MessageActions {
        id: 100,
        roles: vec![
            EmojiRoleMapping { emoji: String::from("🔥"), role: 11 },
            EmojiRoleMapping { emoji: String::from("<:wave:500>"), role: 22 },
        ],
    });
    c
}

#[test]
fn reaction_add_grants_the_mapped_role() {
    let c = container_with_binding();
    let r = dispatch_reaction(
        &c,
        ReactionChange::Added,
        100,
        &ReactionEmoji::Unicode(String::from("🔥")),
    );
    assert_eq!(r, Ok(Some((11, RoleAction::Grant))));
}

#[test]
fn reaction_remove_revokes_the_mapped_role() {
    let c = container_with_binding();
    let r = dispatch_reaction(
        &c,
        ReactionChange::Removed,
        100,
        &ReactionEmoji::Unicode(String::from("🔥")),
    );
    assert_eq!(r, Ok(Some((11, RoleAction::Revoke))));
}

#[test]
fn custom_reaction_is_normalized_before_lookup() {
    let c = container_with_binding();
    let r = dispatch_reaction(
        &c,
        ReactionChange::Added,
        100,
        &ReactionEmoji::Custom { animated: true, id: 500, name: Some(String::from("wave")) },
    );
    assert_eq!(r, Ok(Some((22, RoleAction::Grant))));
}

#[test]
fn unmapped_emoji_issues_no_call() {
    let c = container_with_binding();
    let r = dispatch_reaction(
        &c,
        ReactionChange::Added,
        100,
        &ReactionEmoji::Unicode(String::from("🌊")),
    );
    assert_eq!(r, Ok(None));
}

#[test]
fn unbound_message_is_ignored() {
    let c = container_with_binding();
    let r = dispatch_reaction(
        &c,
        ReactionChange::Added,
        999,
        &ReactionEmoji::Unicode(String::from("🔥")),
    );
    assert_eq!(r, Ok(None));
}

#[test]
fn reserved_payload_kind_is_ignored() {
    let c = container_with_binding();
    let r = dispatch_reaction(&c, ReactionChange::Added, 100, &ReactionEmoji::Unknown);
    assert_eq!(r, Ok(None));
}

#[test]
fn nameless_custom_emoji_is_an_error() {
    let c = container_with_binding();
    let r = dispatch_reaction(
        &c,
        ReactionChange::Added,
        100,
        &ReactionEmoji::Custom { animated: false, id: 500, name: None },
    );
    assert_eq!(r, Err(EmojiError::MissingName));
}

#[test]
fn first_matching_mapping_wins() {
    let mut c = Container::new();
    c.bind_message(MessageActions {
        id: 100,
        roles: vec![
            EmojiRoleMapping { emoji: String::from("🔥"), role: 11 },
            EmojiRoleMapping { emoji: String::from("🔥"), role: 99 },
        ],
    });
    let r = dispatch_reaction(
        &c,
        ReactionChange::Added,
        100,
        &ReactionEmoji::Unicode(String::from("🔥")),
    );
    assert_eq!(r, Ok(Some((11, RoleAction::Grant))));
}

#[test]
fn formatting_of_role_ids_is_decimal() {
    // The description and custom keys lean on decimal rendering; check it at
    // its extremes through the public text helper.
    assert_eq!(reaction_roles::text::u64_to_dec(0), "0");
    assert_eq!(reaction_roles::text::u64_to_dec(507), "507");
    assert_eq!(reaction_roles::text::u64_to_dec(u64::MAX), "18446744073709551615");
}
