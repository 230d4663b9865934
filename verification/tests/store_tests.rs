use reaction_roles::store::Container;
use reaction_roles::store::EmojiRoleMapping;
use reaction_roles::store::Guild;
use reaction_roles::store::MessageActions;
use reaction_roles::store::RoleEntry;

fn role(name: &str, id: u64) -> RoleEntry {
    RoleEntry { id, name: String::from(name) }
}

fn container_with_guild(guild_id: u64, roles: Vec<RoleEntry>) -> Container {
    let mut c = Container::new();
    c.insert_or_replace_guild(Guild { id: guild_id, emojis: Vec::new(), roles });
    c
}

#[test]
fn bind_message_keeps_both_entries() {
    let mut c = Container::new();
    c.bind_message(MessageActions {
        id: 100,
        roles: vec![EmojiRoleMapping { emoji: String::from("🔥"), role: 11 }],
    });
    c.bind_message(MessageActions {
        id: 200,
        roles: vec![EmojiRoleMapping { emoji: String::from("🌊"), role: 22 }],
    });
    assert_eq!(c.messages.len(), 2);
    assert_eq!(c.messages.get(&100).unwrap().roles[0].role, 11);
    assert_eq!(c.messages.get(&200).unwrap().roles[0].role, 22);
}

#[test]
fn bind_message_replaces_same_id() {
    let mut c = Container::new();
    c.bind_message(MessageActions { id: 100, roles: Vec::new() });
    c.bind_message(MessageActions {
        id: 100,
        roles: vec![EmojiRoleMapping { emoji: String::from("🔥"), role: 11 }],
    });
    assert_eq!(c.messages.len(), 1);
    assert_eq!(c.messages.get(&100).unwrap().roles.len(), 1);
}

#[test]
fn role_created_appends_to_known_guild() {
    let mut c = container_with_guild(7, vec![role("Fire", 11)]);
    assert!(c.role_created(7, role("Water", 22)));
    let g = c.guilds.get(&7).unwrap();
    assert_eq!(g.roles.len(), 2);
    assert_eq!(g.roles[1].id, 22);
    assert_eq!(g.roles[1].name, "Water");
}

#[test]
fn role_created_ignores_unknown_guild() {
    let mut c = container_with_guild(7, vec![role("Fire", 11)]);
    assert!(!c.role_created(8, role("Water", 22)));
    assert!(c.guilds.get(&8).is_none());
    assert_eq!(c.guilds.get(&7).unwrap().roles.len(), 1);
}

#[test]
fn role_updated_moves_role_to_the_end() {
    let mut c = container_with_guild(7, vec![role("Fire", 11), role("Water", 22)]);
    assert!(c.role_updated(7, role("Flame", 11)));
    let g = c.guilds.get(&7).unwrap();
    assert_eq!(g.roles.len(), 2);
    assert_eq!(g.roles[0].id, 22);
    assert_eq!(g.roles[1].id, 11);
    assert_eq!(g.roles[1].name, "Flame");
}

#[test]
fn role_updated_appends_when_id_was_absent() {
    let mut c = container_with_guild(7, vec![role("Fire", 11)]);
    assert!(c.role_updated(7, role("Water", 22)));
    let g = c.guilds.get(&7).unwrap();
    assert_eq!(g.roles.len(), 2);
    assert_eq!(g.roles[0].id, 11);
    assert_eq!(g.roles[1].id, 22);
}

#[test]
fn role_updated_ignores_unknown_guild() {
    let mut c = container_with_guild(7, vec![role("Fire", 11)]);
    assert!(!c.role_updated(8, role("Water", 22)));
    assert!(c.guilds.get(&8).is_none());
}

#[test]
fn remove_role_drops_only_the_first_match() {
    let mut c = container_with_guild(7, vec![role("Fire", 11), role("Water", 22)]);
    assert!(c.remove_role(7, 11));
    let g = c.guilds.get(&7).unwrap();
    assert_eq!(g.roles.len(), 1);
    assert_eq!(g.roles[0].id, 22);
    assert!(c.remove_role(7, 99));
    assert_eq!(c.guilds.get(&7).unwrap().roles.len(), 1);
}

#[test]
fn insert_or_replace_guild_replaces_wholesale() {
    let mut c = container_with_guild(7, vec![role("Fire", 11), role("Water", 22)]);
    c.insert_or_replace_guild(Guild { id: 7, emojis: Vec::new(), roles: vec![role("Earth", 33)] });
    let g = c.guilds.get(&7).unwrap();
    assert_eq!(g.roles.len(), 1);
    assert_eq!(g.roles[0].id, 33);
}

#[test]
fn get_guild_role_by_name_exact_match() {
    let c = container_with_guild(7, vec![role("Fire", 11), role("Water", 22)]);
    assert_eq!(c.get_guild_role_by_name(7, "Water").unwrap().id, 22);
    assert!(c.get_guild_role_by_name(7, "water").is_none());
    assert!(c.get_guild_role_by_name(7, "Earth").is_none());
    assert!(c.get_guild_role_by_name(8, "Fire").is_none());
}
