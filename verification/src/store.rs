//! The store: the root `Container` owns per-guild role/emoji caches and
//! per-message emoji-to-role bindings. All mutating operations state exactly
//! how the new store relates to the old one; the caller (who holds the store
//! behind a process-wide lock and persists it after mutating) relies on these
//! contracts. Role lifecycle events are reconciled here: created roles are
//! appended to a known guild's cache, updated roles are re-appended after any
//! entry with the same id is dropped, and startup hydration replaces a guild
//! wholesale.

use std::collections::HashMap;

use vstd::prelude::*;

use crate::emoji::EmojiError;
use crate::emoji::EmojiView;
use crate::emoji::ReactionEmoji;
use crate::emoji::normalize;
use crate::emoji::normalize_spec;
use crate::text::str_eq;

verus! {

broadcast use vstd::std_specs::hash::group_hash_axioms;

/// One role of a guild: its id and its display name.
#[derive(Clone, Debug, PartialEq)]
pub struct RoleEntry {
    pub id: u64,
    pub name: String,
}

/// One custom emoji of a guild, as cached from the platform snapshot.
#[derive(Clone, Debug, PartialEq)]
pub struct GuildEmoji {
    pub id: u64,
    pub name: String,
    pub animated: bool,
}

/// One chat server: a snapshot of its emojis and roles.
#[derive(Clone, Debug, PartialEq)]
pub struct Guild {
    pub id: u64,
    pub emojis: Vec<GuildEmoji>,
    pub roles: Vec<RoleEntry>,
}

/// One (emoji key, role id) pair of a selector message.
#[derive(Clone, Debug, PartialEq)]
pub struct EmojiRoleMapping {
    pub emoji: String,
    pub role: u64,
}

/// One published selector message: its id and its ordered mappings. Within
/// one message, lookups take the first mapping whose emoji key matches.
#[derive(Clone, Debug, PartialEq)]
pub struct MessageActions {
    pub id: u64,
    pub roles: Vec<EmojiRoleMapping>,
}

/// The store's root: guilds keyed by guild id, selector messages keyed by
/// message id.
#[derive(Debug)]
pub struct Container {
    pub guilds: HashMap<u64, Guild>,
    pub messages: HashMap<u64, MessageActions>,
}

// ---------------------------------------------------------------------------
// Lookup spec functions
// ---------------------------------------------------------------------------
/// The first role whose name equals `name`, exactly and case-sensitively.
pub open spec fn lookup_role(roles: Seq<RoleEntry>, name: Seq<char>) -> Option<RoleEntry>
    decreases roles.len(),
{
    if roles.len() == 0 {
        None
    } else if roles[0].name@ == name {
        Some(roles[0])
    } else {
        lookup_role(roles.skip(1), name)
    }
}

/// The role id of the first mapping whose emoji key equals `key`.
pub open spec fn lookup_emoji(mappings: Seq<EmojiRoleMapping>, key: Seq<char>) -> Option<u64>
    decreases mappings.len(),
{
    if mappings.len() == 0 {
        None
    } else if mappings[0].emoji@ == key {
        Some(mappings[0].role)
    } else {
        lookup_emoji(mappings.skip(1), key)
    }
}

/// Whether some entry carries the role id `id`.
pub open spec fn has_role_id(roles: Seq<RoleEntry>, id: u64) -> bool {
    exists|i: int| 0 <= i < roles.len() && roles[i].id == id
}

/// `roles` with the first entry of id `id` dropped, if any.
pub open spec fn remove_first_role(roles: Seq<RoleEntry>, id: u64) -> Seq<RoleEntry>
    decreases roles.len(),
{
    if roles.len() == 0 {
        roles
    } else if roles[0].id == id {
        roles.skip(1)
    } else {
        seq![roles[0]] + remove_first_role(roles.skip(1), id)
    }
}

/// At most one entry per role id.
pub open spec fn wf_roles(roles: Seq<RoleEntry>) -> bool {
    forall|i: int, j: int|
        #![trigger roles[i].id, roles[j].id]
        0 <= i < j < roles.len() ==> roles[i].id != roles[j].id
}

pub proof fn lemma_remove_first_none(roles: Seq<RoleEntry>, id: u64)
    requires
        forall|j: int| 0 <= j < roles.len() ==> (#[trigger] roles[j].id) != id,
    ensures
        remove_first_role(roles, id) == roles,
    decreases roles.len(),
{
    if roles.len() > 0 {
        lemma_remove_first_none(roles.skip(1), id);
        assert(seq![roles[0]] + roles.skip(1) =~= roles);
    }
}

pub proof fn lemma_remove_first_at(roles: Seq<RoleEntry>, id: u64, i: int)
    requires
        0 <= i < roles.len(),
        roles[i].id == id,
        forall|j: int| 0 <= j < i ==> (#[trigger] roles[j].id) != id,
    ensures
        remove_first_role(roles, id) == roles.remove(i),
    decreases i,
{
    if i == 0 {
        assert(roles.skip(1) =~= roles.remove(0));
    } else {
        assert(roles.skip(1)[i - 1].id == id);
        assert(forall|j: int| 0 <= j < i - 1 ==> (#[trigger] roles.skip(1)[j].id) != id);
        lemma_remove_first_at(roles.skip(1), id, i - 1);
        assert(seq![roles[0]] + roles.skip(1).remove(i - 1) =~= roles.remove(i));
    }
}

/// In a sequence that holds the id somewhere, there is a first entry with it.
pub proof fn lemma_first_role_index(roles: Seq<RoleEntry>, id: u64) -> (i: int)
    requires
        has_role_id(roles, id),
    ensures
        0 <= i < roles.len(),
        roles[i].id == id,
        forall|j: int| 0 <= j < i ==> (#[trigger] roles[j].id) != id,
    decreases roles.len(),
{
    if roles[0].id == id {
        0
    } else {
        assert(has_role_id(roles.skip(1), id)) by {
            let w = choose|w: int| 0 <= w < roles.len() && roles[w].id == id;
            assert(roles.skip(1)[w - 1].id == id);
        }
        let i = lemma_first_role_index(roles.skip(1), id) + 1;
        assert(roles[i].id == id);
        assert forall|j: int| 0 <= j < i implies (#[trigger] roles[j].id) != id by {
            if j >= 1 {
                assert(roles.skip(1)[j - 1].id != id);
                assert(roles[j] == roles.skip(1)[j - 1]);
            }
        }
        i
    }
}

// ---------------------------------------------------------------------------
// Guild lookups
// ---------------------------------------------------------------------------
impl Guild {
    /// The first cached role with exactly this name, if any.
    #[verifier::loop_isolation(false)]
    pub fn get_role_by_name(&self, role_name: &str) -> (r: Option<&RoleEntry>)
        ensures
            match r {
                Some(re) => lookup_role(self.roles@, role_name@) == Some(*re),
                None => lookup_role(self.roles@, role_name@) is None,
            },
    {
        let mut i: usize = 0;
        proof {
            assert(self.roles@.skip(0) =~= self.roles@);
        }
        while i < self.roles.len()
            invariant
                i <= self.roles@.len(),
                lookup_role(self.roles@.skip(i as int), role_name@) == lookup_role(
                    self.roles@,
                    role_name@,
                ),
            decreases self.roles@.len() - i,
        {
            proof {
                assert(self.roles@.skip(i as int)[0] == self.roles@[i as int]);
                assert(self.roles@.skip(i as int).skip(1) =~= self.roles@.skip(i as int + 1));
            }
            if str_eq(self.roles[i].name.as_str(), role_name) {
                return Some(&self.roles[i]);
            }
            i = i + 1;
        }
        None
    }
}

// ---------------------------------------------------------------------------
// Message lookups
// ---------------------------------------------------------------------------
/// What a reaction on this message means: the missing-name error, no role
/// (unknown payload kind or unmapped emoji key), or the bound role id.
pub open spec fn role_for_reaction(m: MessageActions, e: EmojiView) -> Result<
    Option<u64>,
    EmojiError,
> {
    match normalize_spec(e) {
        Err(er) => Err(er),
        Ok(None) => Ok(None),
        Ok(Some(key)) => Ok(lookup_emoji(m.roles@, key)),
    }
}

impl MessageActions {
    /// Resolves a reaction to the bound role id: the reaction is normalized
    /// to its emoji key and the first mapping with that key decides.
    #[verifier::loop_isolation(false)]
    pub fn get_role_from_emoji(&self, reaction: &ReactionEmoji) -> (r: Result<
        Option<u64>,
        EmojiError,
    >)
        ensures
            r == role_for_reaction(*self, reaction@),
    {
        let key = match normalize(reaction) {
            Err(er) => {
                return Err(er);
            },
            Ok(None) => {
                return Ok(None);
            },
            Ok(Some(key)) => key,
        };
        let mut i: usize = 0;
        proof {
            assert(self.roles@.skip(0) =~= self.roles@);
        }
        while i < self.roles.len()
            invariant
                i <= self.roles@.len(),
                lookup_emoji(self.roles@.skip(i as int), key@) == lookup_emoji(
                    self.roles@,
                    key@,
                ),
            decreases self.roles@.len() - i,
        {
            proof {
                assert(self.roles@.skip(i as int)[0] == self.roles@[i as int]);
                assert(self.roles@.skip(i as int).skip(1) =~= self.roles@.skip(i as int + 1));
            }
            if str_eq(self.roles[i].emoji.as_str(), key.as_str()) {
                return Ok(Some(self.roles[i].role));
            }
            i = i + 1;
        }
        Ok(None)
    }
}

// ---------------------------------------------------------------------------
// The container
// ---------------------------------------------------------------------------
/// Removes the first entry with the given id from `roles`, if present.
#[verifier::loop_isolation(false)]
fn drop_role_entry(roles: &mut Vec<RoleEntry>, id: u64)
    ensures
        final(roles)@ == remove_first_role(old(roles)@, id),
{
    let mut i: usize = 0;
    while i < roles.len()
        invariant
            i <= roles@.len(),
            roles@ == old(roles)@,
            forall|j: int| 0 <= j < i ==> (#[trigger] roles@[j].id) != id,
        decreases roles@.len() - i,
    {
        if roles[i].id == id {
            let _e = roles.remove(i);
            proof {
                lemma_remove_first_at(old(roles)@, id, i as int);
            }
            return;
        }
        i = i + 1;
    }
    proof {
        lemma_remove_first_none(roles@, id);
    }
}

impl Container {
    /// An empty store; the caller hydrates it from the persisted state.
    pub fn new() -> (c: Container)
        ensures
            c.guilds@ == Map::<u64, Guild>::empty(),
            c.messages@ == Map::<u64, MessageActions>::empty(),
    {
        Container { guilds: HashMap::new(), messages: HashMap::new() }
    }

    /// The first role with this exact name in the guild's cache; nothing when
    /// the guild is unknown.
    pub fn get_guild_role_by_name(&self, guild_id: u64, role_name: &str) -> (r: Option<
        &RoleEntry,
    >)
        ensures
            match r {
                Some(re) => self.guilds@.contains_key(guild_id) && lookup_role(
                    self.guilds@[guild_id].roles@,
                    role_name@,
                ) == Some(*re),
                None => !self.guilds@.contains_key(guild_id) || lookup_role(
                    self.guilds@[guild_id].roles@,
                    role_name@,
                ) is None,
            },
    {
        match self.guilds.get(&guild_id) {
            None => None,
            Some(guild) => guild.get_role_by_name(role_name),
        }
    }

    /// The selector message bound under this id, if any.
    pub fn get_message(&self, message_id: u64) -> (r: Option<&MessageActions>)
        ensures
            match r {
                Some(m) => self.messages@.contains_key(message_id) && *m
                    == self.messages@[message_id],
                None => !self.messages@.contains_key(message_id),
            },
    {
        self.messages.get(&message_id)
    }

    /// Startup hydration: replaces the cached entry for this guild wholesale.
    pub fn insert_or_replace_guild(&mut self, guild: Guild)
        ensures
            final(self).guilds@ == old(self).guilds@.insert(guild.id, guild),
            final(self).messages@ == old(self).messages@,
    {
        let id = guild.id;
        let _prev = self.guilds.insert(id, guild);
    }

    /// Binds a finished selector message under its message id.
    pub fn bind_message(&mut self, actions: MessageActions)
        ensures
            final(self).messages@ == old(self).messages@.insert(actions.id, actions),
            final(self).guilds@ == old(self).guilds@,
    {
        let id = actions.id;
        let _prev = self.messages.insert(id, actions);
    }

    /// A role was created: appends it to the owning guild's cache; an unknown
    /// guild is deliberately not created here.
    pub fn role_created(&mut self, guild_id: u64, role: RoleEntry) -> (updated: bool)
        ensures
            updated == old(self).guilds@.contains_key(guild_id),
            final(self).messages@ == old(self).messages@,
            !updated ==> final(self).guilds@ == old(self).guilds@,
            updated ==> {
                let g0 = old(self).guilds@[guild_id];
                let g1 = final(self).guilds@[guild_id];
                &&& final(self).guilds@ == old(self).guilds@.insert(guild_id, g1)
                &&& g1.id == g0.id
                &&& g1.emojis@ == g0.emojis@
                &&& g1.roles@ == g0.roles@.push(role)
            },
    {
        match self.guilds.remove(&guild_id) {
            None => {
                proof {
                    assert(old(self).guilds@.remove(guild_id) =~= old(self).guilds@);
                }
                false
            },
            Some(mut guild) => {
                guild.roles.push(role);
                let _prev = self.guilds.insert(guild_id, guild);
                proof {
                    assert(old(self).guilds@.remove(guild_id).insert(guild_id, guild)
                        =~= old(self).guilds@.insert(guild_id, guild));
                }
                true
            },
        }
    }

    /// A role was updated: any cached entry with its id is dropped, then the
    /// new entry is appended (so an updated role moves to the end of the
    /// order); an unknown guild is left alone.
    pub fn role_updated(&mut self, guild_id: u64, role: RoleEntry) -> (updated: bool)
        ensures
            updated == old(self).guilds@.contains_key(guild_id),
            final(self).messages@ == old(self).messages@,
            !updated ==> final(self).guilds@ == old(self).guilds@,
            updated ==> {
                let g0 = old(self).guilds@[guild_id];
                let g1 = final(self).guilds@[guild_id];
                &&& final(self).guilds@ == old(self).guilds@.insert(guild_id, g1)
                &&& g1.id == g0.id
                &&& g1.emojis@ == g0.emojis@
                &&& g1.roles@ == remove_first_role(g0.roles@, role.id).push(role)
            },
    {
        match self.guilds.remove(&guild_id) {
            None => {
                proof {
                    assert(old(self).guilds@.remove(guild_id) =~= old(self).guilds@);
                }
                false
            },
            Some(mut guild) => {
                drop_role_entry(&mut guild.roles, role.id);
                guild.roles.push(role);
                let _prev = self.guilds.insert(guild_id, guild);
                proof {
                    assert(old(self).guilds@.remove(guild_id).insert(guild_id, guild)
                        =~= old(self).guilds@.insert(guild_id, guild));
                }
                true
            },
        }
    }

    /// Drops the first cached entry with this role id from the guild's cache.
    pub fn remove_role(&mut self, guild_id: u64, role_id: u64) -> (updated: bool)
        ensures
            updated == old(self).guilds@.contains_key(guild_id),
            final(self).messages@ == old(self).messages@,
            !updated ==> final(self).guilds@ == old(self).guilds@,
            updated ==> {
                let g0 = old(self).guilds@[guild_id];
                let g1 = final(self).guilds@[guild_id];
                &&& final(self).guilds@ == old(self).guilds@.insert(guild_id, g1)
                &&& g1.id == g0.id
                &&& g1.emojis@ == g0.emojis@
                &&& g1.roles@ == remove_first_role(g0.roles@, role_id)
            },
    {
        match self.guilds.remove(&guild_id) {
            None => {
                proof {
                    assert(old(self).guilds@.remove(guild_id) =~= old(self).guilds@);
                }
                false
            },
            Some(mut guild) => {
                drop_role_entry(&mut guild.roles, role_id);
                let _prev = self.guilds.insert(guild_id, guild);
                proof {
                    assert(old(self).guilds@.remove(guild_id).insert(guild_id, guild)
                        =~= old(self).guilds@.insert(guild_id, guild));
                }
                true
            },
        }
    }
}

// ---------------------------------------------------------------------------
// Laws
// ---------------------------------------------------------------------------
/// A role update leaves the updated role present afterwards, also when its id
/// was not cached before: dropping an absent id changes nothing, and the role
/// is then appended.
pub proof fn lemma_updated_role_present(roles: Seq<RoleEntry>, role: RoleEntry)
    ensures
        has_role_id(remove_first_role(roles, role.id).push(role), role.id),
        !has_role_id(roles, role.id) ==> remove_first_role(roles, role.id) == roles,
{
    let r2 = remove_first_role(roles, role.id).push(role);
    assert(r2[r2.len() - 1].id == role.id);
    if !has_role_id(roles, role.id) {
        assert forall|j: int| 0 <= j < roles.len() implies (#[trigger] roles[j].id)
            != role.id by {
            if roles[j].id == role.id {
                assert(has_role_id(roles, role.id));
            }
        }
        lemma_remove_first_none(roles, role.id);
    }
}

/// A role update preserves the cache invariant of at most one entry per role
/// id, and afterwards exactly the updated entry carries the updated id.
pub proof fn lemma_role_update_wf(roles: Seq<RoleEntry>, role: RoleEntry)
    requires
        wf_roles(roles),
    ensures
        wf_roles(remove_first_role(roles, role.id).push(role)),
{
    let dropped = remove_first_role(roles, role.id);
    if has_role_id(roles, role.id) {
        let i = lemma_first_role_index(roles, role.id);
        lemma_remove_first_at(roles, role.id, i);
        assert(dropped =~= roles.subrange(0, i) + roles.subrange(i + 1, roles.len() as int));
        assert forall|a: int, b: int|
            #![trigger dropped[a].id, dropped[b].id]
            0 <= a < b < dropped.len() implies dropped[a].id != dropped[b].id by {
            let a2: int = if a < i {
                a
            } else {
                a + 1
            };
            let b2: int = if b < i {
                b
            } else {
                b + 1
            };
            assert(dropped[a] == roles[a2]);
            assert(dropped[b] == roles[b2]);
        }
        assert forall|a: int| 0 <= a < dropped.len() implies (#[trigger] dropped[a].id)
            != role.id by {
            let a2: int = if a < i {
                a
            } else {
                a + 1
            };
            assert(dropped[a] == roles[a2]);
            assert(roles[a2].id != roles[i].id);
        }
    } else {
        assert forall|j: int| 0 <= j < roles.len() implies (#[trigger] roles[j].id)
            != role.id by {
            if roles[j].id == role.id {
                assert(has_role_id(roles, role.id));
            }
        }
        lemma_remove_first_none(roles, role.id);
    }
    let r2 = dropped.push(role);
    assert forall|a: int, b: int|
        #![trigger r2[a].id, r2[b].id]
        0 <= a < b < r2.len() implies r2[a].id != r2[b].id by {
        if b < r2.len() - 1 {
            assert(r2[a] == dropped[a]);
            assert(r2[b] == dropped[b]);
        } else {
            assert(r2[a] == dropped[a]);
            assert(r2[b] == role);
        }
    }
}

/// Two bindings for different message ids never lose an entry: after both
/// inserts, whatever their order under the store's lock, both messages are
/// bound. The store lock serializes any two concurrent `bind_message` calls
/// into one such order.
pub proof fn lemma_bind_message_both_present(
    m0: Map<u64, MessageActions>,
    a1: MessageActions,
    a2: MessageActions,
)
    requires
        a1.id != a2.id,
    ensures
        ({
            let m2 = m0.insert(a1.id, a1).insert(a2.id, a2);
            &&& m2.contains_key(a1.id)
            &&& m2[a1.id] == a1
            &&& m2.contains_key(a2.id)
            &&& m2[a2.id] == a2
        }),
{
}

} // verus!
