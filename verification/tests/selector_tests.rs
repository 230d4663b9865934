use reaction_roles::selector::parse_selector;
use reaction_roles::selector::SelectorError;
use reaction_roles::store::Container;
use reaction_roles::store::Guild;
use reaction_roles::store::RoleEntry;

fn guild_with_roles(guild_id: u64, roles: Vec<(&str, u64)>) -> Container {
    let mut c = Container::new();
    let entries: Vec<RoleEntry> = roles
        .into_iter()
        .map(|(name, id)| RoleEntry { id, name: String::from(name) })
        .collect();
    c.insert_or_replace_guild(Guild { id: guild_id, emojis: Vec::new(), roles: entries });
    c
}

#[test]
fn two_items_in_order_with_description() {
    let c = guild_with_roles(7, vec![("Fire", 11), ("Water", 22)]);
    let parsed = parse_selector("(🔥 | Fire) (🌊 | Water)", &c, 7).unwrap();
    assert_eq!(parsed.mappings.len(), 2);
    assert_eq!(parsed.mappings[0].emoji, "🔥");
    assert_eq!(parsed.mappings[0].role, 11);
    assert_eq!(parsed.mappings[1].emoji, "🌊");
    assert_eq!(parsed.mappings[1].role, 22);
    assert_eq!(
        parsed.description,
        "You can get <@&11> if you react with 🔥\nYou can get <@&22> if you react with 🌊"
    );
}

#[test]
fn single_item_needs_no_parentheses() {
    let c = guild_with_roles(7, vec![("Fire", 11)]);
    let parsed = parse_selector("🔥 | Fire", &c, 7).unwrap();
    assert_eq!(parsed.mappings.len(), 1);
    assert_eq!(parsed.mappings[0].emoji, "🔥");
    assert_eq!(parsed.mappings[0].role, 11);
    assert_eq!(parsed.description, "You can get <@&11> if you react with 🔥");
}

#[test]
fn empty_body_is_rejected() {
    let c = guild_with_roles(7, vec![("Fire", 11)]);
    assert_eq!(parse_selector("", &c, 7).unwrap_err(), SelectorError::EmptyBody);
}

#[test]
fn whitespace_body_is_rejected() {
    let c = guild_with_roles(7, vec![("Fire", 11)]);
    assert_eq!(parse_selector("  \t \n ", &c, 7).unwrap_err(), SelectorError::EmptyBody);
}

#[test]
fn item_without_separator_is_malformed() {
    let c = guild_with_roles(7, vec![("Fire", 11)]);
    assert_eq!(parse_selector("(🔥 Fire)", &c, 7).unwrap_err(), SelectorError::MalformedItem);
}

#[test]
fn item_with_two_separators_is_malformed() {
    let c = guild_with_roles(7, vec![("Fire", 11)]);
    assert_eq!(
        parse_selector("(🔥 | Fire | extra)", &c, 7).unwrap_err(),
        SelectorError::MalformedItem
    );
}

#[test]
fn item_with_empty_part_is_malformed() {
    let c = guild_with_roles(7, vec![("Fire", 11)]);
    assert_eq!(parse_selector("( | Fire)", &c, 7).unwrap_err(), SelectorError::MalformedItem);
    assert_eq!(parse_selector("(🔥 | )", &c, 7).unwrap_err(), SelectorError::MalformedItem);
}

#[test]
fn malformed_item_aborts_later_items() {
    let c = guild_with_roles(7, vec![("Fire", 11), ("Water", 22)]);
    // The first item is fine; the second is malformed; nothing is produced.
    assert_eq!(
        parse_selector("(🔥 | Fire) (🌊 Water)", &c, 7).unwrap_err(),
        SelectorError::MalformedItem
    );
}

#[test]
fn unknown_role_is_rejected() {
    let c = guild_with_roles(7, vec![("Fire", 11)]);
    assert_eq!(parse_selector("(🔥 | Earth)", &c, 7).unwrap_err(), SelectorError::UnknownRole);
}

#[test]
fn unknown_role_aborts_after_resolved_items() {
    let c = guild_with_roles(7, vec![("Fire", 11)]);
    assert_eq!(
        parse_selector("(🔥 | Fire) (🌊 | Water)", &c, 7).unwrap_err(),
        SelectorError::UnknownRole
    );
}

#[test]
fn role_lookup_is_case_sensitive() {
    let c = guild_with_roles(7, vec![("Fire", 11)]);
    assert_eq!(parse_selector("(🔥 | fire)", &c, 7).unwrap_err(), SelectorError::UnknownRole);
}

#[test]
fn role_lookup_takes_first_match() {
    let c = guild_with_roles(7, vec![("Fire", 11), ("Fire", 99)]);
    let parsed = parse_selector("(🔥 | Fire)", &c, 7).unwrap();
    assert_eq!(parsed.mappings[0].role, 11);
}

#[test]
fn unknown_guild_has_no_roles() {
    let c = guild_with_roles(7, vec![("Fire", 11)]);
    assert_eq!(parse_selector("(🔥 | Fire)", &c, 8).unwrap_err(), SelectorError::UnknownRole);
}

#[test]
fn custom_emoji_token_is_used_verbatim() {
    let c = guild_with_roles(7, vec![("Fire", 11)]);
    let parsed = parse_selector("(<:fire:123> | Fire)", &c, 7).unwrap();
    assert_eq!(parsed.mappings[0].emoji, "<:fire:123>");
    assert_eq!(parsed.description, "You can get <@&11> if you react with <:fire:123>");
}
