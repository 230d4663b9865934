//! The selector-command parser: a command body of the form
//! `(emoji | role name) (emoji | role name) ...` becomes an ordered list of
//! emoji-to-role mappings, resolved against the invoking guild's cached role
//! list, together with one human-readable description line per mapping. The
//! grammar is deliberately strict: items are separated by exactly `") ("`,
//! leftover parentheses are stripped, and each item must split on `|` into
//! exactly two non-empty parts. Parsing is read-only with respect to the
//! store and aborts at the first failing item, creating no partial selector.

use vstd::prelude::*;
use vstd::string::StrSliceExecFns;
use vstd::string::StringExecFns;

use crate::store::Container;
use crate::store::EmojiRoleMapping;
use crate::store::RoleEntry;
use crate::store::lookup_role;
use crate::text::chars_of;
use crate::text::dec_str;
use crate::text::remove_chars;
use crate::text::remove_chars_exec;
use crate::text::split_chars;
use crate::text::split_spec;
use crate::text::str_eq_chars;
use crate::text::string_of;
use crate::text::trim_in_place;
use crate::text::trim_spec;
use crate::text::u64_to_dec;
use crate::text::lemma_remove_chars_concat;
use crate::text::lemma_remove_chars_none;
use crate::text::lemma_split_concat;
use crate::text::lemma_split_len;
use crate::text::lemma_split_no_match;
use crate::text::lemma_split_prefix;
use crate::text::lemma_trim_of_clean;
use crate::text::lemma_trim_pad;
use crate::text::lemma_trim_stable_parts;

verus! {

/// A user-facing parse failure: an empty body, an item that does not split on
/// `|` into exactly two non-empty parts, or a role name absent from the
/// guild's cache.
#[derive(Clone, Copy, Debug, PartialEq, Eq, Structural)]
pub enum SelectorError {
    EmptyBody,
    MalformedItem,
    UnknownRole,
}

/// A successfully parsed selector: the ordered mappings and the newline-joined
/// description, one line per mapping.
#[derive(Debug)]
pub struct ParsedSelector {
    pub mappings: Vec<EmojiRoleMapping>,
    pub description: String,
}

/// The item separator of the selector grammar.
pub open spec fn item_delim() -> Seq<char> {
    seq![')', ' ', '(']
}

/// The characters an item is stripped of before the `|` split.
pub open spec fn paren_chars() -> Seq<char> {
    seq!['(', ')']
}

/// What one item yields: the trimmed emoji key and the trimmed role name,
/// or nothing when the item is malformed.
pub open spec fn parse_item_spec(item: Seq<char>) -> Option<(Seq<char>, Seq<char>)> {
    let cleaned = trim_spec(remove_chars(item, paren_chars()));
    let parts = split_spec(cleaned, seq!['|']);
    if parts.len() == 2 {
        let emoji = trim_spec(parts[0]);
        let name = trim_spec(parts[1]);
        if emoji.len() > 0 && name.len() > 0 {
            Some((emoji, name))
        } else {
            None
        }
    } else {
        None
    }
}

/// What the item list yields, left to right, aborting at the first failure:
/// the (emoji key, role id) pairs in input order.
pub open spec fn parse_items_spec(items: Seq<Seq<char>>, roles: Seq<RoleEntry>) -> Result<
    Seq<(Seq<char>, u64)>,
    SelectorError,
>
    decreases items.len(),
{
    if items.len() == 0 {
        Ok(Seq::empty())
    } else {
        match parse_item_spec(items[0]) {
            None => Err(SelectorError::MalformedItem),
            Some(pair) => match lookup_role(roles, pair.1) {
                None => Err(SelectorError::UnknownRole),
                Some(role) => match parse_items_spec(items.skip(1), roles) {
                    Err(e) => Err(e),
                    Ok(rest) => Ok(seq![(pair.0, role.id)] + rest),
                },
            },
        }
    }
}

/// What parsing a whole body yields: `EmptyBody` for a whitespace-only body,
/// else the items between `") ("` separators, resolved in order.
pub open spec fn parse_selector_spec(body: Seq<char>, roles: Seq<RoleEntry>) -> Result<
    Seq<(Seq<char>, u64)>,
    SelectorError,
> {
    let t = trim_spec(body);
    if t.len() == 0 {
        Err(SelectorError::EmptyBody)
    } else {
        parse_items_spec(split_spec(t, item_delim()), roles)
    }
}

/// The guild's cached role list; an unknown guild has no roles, so every
/// role reference in its selectors fails as unknown.
pub open spec fn guild_roles_view(c: Container, guild_id: u64) -> Seq<RoleEntry> {
    if c.guilds@.contains_key(guild_id) {
        c.guilds@[guild_id].roles@
    } else {
        Seq::empty()
    }
}

/// One description line.
pub open spec fn desc_line(emoji: Seq<char>, role_id: u64) -> Seq<char> {
    "You can get <@&"@ + dec_str(role_id as int) + "> if you react with "@ + emoji
}

/// The description lines of the mappings, newline-joined.
pub open spec fn desc_lines(mappings: Seq<(Seq<char>, u64)>) -> Seq<char>
    decreases mappings.len(),
{
    if mappings.len() == 0 {
        Seq::empty()
    } else if mappings.len() == 1 {
        desc_line(mappings[0].0, mappings[0].1)
    } else {
        desc_line(mappings[0].0, mappings[0].1) + seq!['\n'] + desc_lines(mappings.skip(1))
    }
}

/// The mathematical value of a mapping list.
pub open spec fn mappings_view(v: Seq<EmojiRoleMapping>) -> Seq<(Seq<char>, u64)> {
    v.map_values(|m: EmojiRoleMapping| (m.emoji@, m.role))
}

proof fn lemma_desc_lines_push(ms: Seq<(Seq<char>, u64)>, m: (Seq<char>, u64))
    ensures
        ms.len() > 0 ==> desc_lines(ms.push(m)) == desc_lines(ms) + seq!['\n'] + desc_line(
            m.0,
            m.1,
        ),
        ms.len() == 0 ==> desc_lines(ms.push(m)) == desc_line(m.0, m.1),
    decreases ms.len(),
{
    if ms.len() == 0 {
        assert(ms.push(m)[0] == m);
    } else {
        let p = ms.push(m);
        assert(p[0] == ms[0]);
        assert(p.skip(1) =~= ms.skip(1).push(m));
        lemma_desc_lines_push(ms.skip(1), m);
        if ms.len() == 1 {
            assert(ms.skip(1).len() == 0);
            assert(desc_lines(p) == desc_line(ms[0].0, ms[0].1) + seq!['\n'] + desc_line(
                m.0,
                m.1,
            ));
        } else {
            assert(desc_lines(ms) + seq!['\n'] + desc_line(m.0, m.1) =~= desc_line(
                ms[0].0,
                ms[0].1,
            ) + seq!['\n'] + (desc_lines(ms.skip(1)) + seq!['\n'] + desc_line(m.0, m.1)));
        }
    }
}

/// The first role id under this name, as `find_role_id` returns it.
#[verifier::loop_isolation(false)]
fn find_role_id(roles: &Vec<RoleEntry>, name: &Vec<char>) -> (r: Option<u64>)
    ensures
        match r {
            Some(id) => lookup_role(roles@, name@) matches Some(re) && re.id == id,
            None => lookup_role(roles@, name@) is None,
        },
{
    let mut i: usize = 0;
    proof {
        assert(roles@.skip(0) =~= roles@);
    }
    while i < roles.len()
        invariant
            i <= roles@.len(),
            lookup_role(roles@.skip(i as int), name@) == lookup_role(roles@, name@),
        decreases roles@.len() - i,
    {
        proof {
            assert(roles@.skip(i as int)[0] == roles@[i as int]);
            assert(roles@.skip(i as int).skip(1) =~= roles@.skip(i as int + 1));
        }
        if str_eq_chars(roles[i].name.as_str(), name) {
            return Some(roles[i].id);
        }
        i = i + 1;
    }
    None
}

/// Parses a selector command body against the invoking guild's cached role
/// list. On success the mappings are exactly the items in input order, each
/// with the id of the first cached role of that name, and the description is
/// their newline-joined lines; on failure the error is exactly what the
/// grammar assigns to the body, and nothing is produced.
#[verifier::loop_isolation(false)]
pub fn parse_selector(body: &str, container: &Container, guild_id: u64) -> (r: Result<
    ParsedSelector,
    SelectorError,
>)
    ensures
        r matches Err(e) ==> parse_selector_spec(body@, guild_roles_view(*container, guild_id))
            == Err::<Seq<(Seq<char>, u64)>, SelectorError>(e),
        r matches Ok(p) ==> parse_selector_spec(body@, guild_roles_view(*container, guild_id))
            matches Ok(ms) && mappings_view(p.mappings@) == ms && p.description@ == desc_lines(
            ms,
        ),
{
    let ghost spec_roles: Seq<RoleEntry> = guild_roles_view(*container, guild_id);
    let mut cs = chars_of(body);
    trim_in_place(&mut cs);
    if cs.len() == 0 {
        return Err(SelectorError::EmptyBody);
    }
    let delim: Vec<char> = vec![')', ' ', '('];
    proof {
        assert(delim@ =~= item_delim());
    }
    let items = split_chars(&cs, &delim);
    let ghost s_items: Seq<Seq<char>> = split_spec(cs@, item_delim());
    proof {
        lemma_split_len(cs@, item_delim());
    }

    let empty_roles: Vec<RoleEntry> = Vec::new();
    let roles: &Vec<RoleEntry> = match container.guilds.get(&guild_id) {
        Some(g) => &g.roles,
        None => &empty_roles,
    };
    proof {
        assert(roles@ == spec_roles);
    }

    let parens: Vec<char> = vec!['(', ')'];
    let bar: Vec<char> = vec!['|'];
    proof {
        assert(parens@ =~= paren_chars());
        assert(bar@ =~= seq!['|']);
    }

    let mut mappings: Vec<EmojiRoleMapping> = Vec::new();
    let mut description = String::new();
    let mut idx: usize = 0;
    proof {
        assert(s_items.skip(0) =~= s_items);
        assert(mappings_view(mappings@) =~= Seq::<(Seq<char>, u64)>::empty());
        match parse_items_spec(s_items, spec_roles) {
            Ok(rest) => {
                assert(mappings_view(mappings@) + rest =~= rest);
            },
            Err(_) => {},
        }
    }
    while idx < items.len()
        invariant
            idx <= items@.len(),
            mappings@.len() == idx,
            parse_items_spec(s_items, spec_roles) == (match parse_items_spec(
                s_items.skip(idx as int),
                spec_roles,
            ) {
                Ok(rest) => Ok::<Seq<(Seq<char>, u64)>, SelectorError>(
                    mappings_view(mappings@) + rest,
                ),
                Err(e) => Err(e),
            }),
            idx > 0 ==> description@ == desc_lines(mappings_view(mappings@)),
            idx == 0 ==> description@ == Seq::<char>::empty(),
        decreases items@.len() - idx,
    {
        let ghost tail: Seq<Seq<char>> = s_items.skip(idx as int);
        proof {
            assert(tail[0] == s_items[idx as int]);
            assert(items@[idx as int]@ == s_items[idx as int]);
            assert(tail.skip(1) =~= s_items.skip(idx as int + 1));
        }
        let stripped = remove_chars_exec(&items[idx], &parens);
        let mut cleaned = stripped;
        trim_in_place(&mut cleaned);
        let mut parts = split_chars(&cleaned, &bar);
        if parts.len() != 2 {
            proof {
                assert(parse_item_spec(tail[0]) is None);
                assert(parse_items_spec(tail, spec_roles) == Err::<
                    Seq<(Seq<char>, u64)>,
                    SelectorError,
                >(SelectorError::MalformedItem));
            }
            return Err(SelectorError::MalformedItem);
        }
        let ghost spec_parts: Seq<Seq<char>> = split_spec(cleaned@, seq!['|']);
        proof {
            assert(parts@[0]@ == spec_parts[0]);
            assert(parts@[1]@ == spec_parts[1]);
        }
        let mut name_part = match parts.pop() {
            Some(v) => v,
            None => {
                return Err(SelectorError::MalformedItem);
            },
        };
        let mut emoji_part = match parts.pop() {
            Some(v) => v,
            None => {
                return Err(SelectorError::MalformedItem);
            },
        };
        trim_in_place(&mut name_part);
        trim_in_place(&mut emoji_part);
        if emoji_part.len() == 0 || name_part.len() == 0 {
            proof {
                assert(parse_item_spec(tail[0]) is None);
                assert(parse_items_spec(tail, spec_roles) == Err::<
                    Seq<(Seq<char>, u64)>,
                    SelectorError,
                >(SelectorError::MalformedItem));
            }
            return Err(SelectorError::MalformedItem);
        }
        proof {
            assert(parse_item_spec(tail[0]) == Some((emoji_part@, name_part@)));
        }
        let role_id = match find_role_id(roles, &name_part) {
            None => {
                proof {
                    assert(parse_items_spec(tail, spec_roles) == Err::<
                        Seq<(Seq<char>, u64)>,
                        SelectorError,
                    >(SelectorError::UnknownRole));
                }
                return Err(SelectorError::UnknownRole);
            },
            Some(id) => id,
        };
        let ghost mv_old: Seq<(Seq<char>, u64)> = mappings_view(mappings@);
        let ghost m: (Seq<char>, u64) = (emoji_part@, role_id);

        if mappings.len() > 0 {
            description.push('\n');
        }
        let emoji_str = string_of(&emoji_part);
        description.append("You can get <@&");
        let ds = u64_to_dec(role_id);
        description.append(ds.as_str());
        description.append("> if you react with ");
        description.append(emoji_str.as_str());
        mappings.push(EmojiRoleMapping { emoji: emoji_str, role: role_id });
        idx = idx + 1;
        proof {
            assert(mappings_view(mappings@) =~= mv_old.push(m));
            lemma_desc_lines_push(mv_old, m);
            assert(description@ =~= (if mv_old.len() > 0 {
                desc_lines(mv_old) + seq!['\n'] + desc_line(m.0, m.1)
            } else {
                desc_line(m.0, m.1)
            }));
            let rec = parse_items_spec(s_items.skip(idx as int), spec_roles);
            match rec {
                Err(e) => {
                    assert(parse_items_spec(tail, spec_roles) == Err::<
                        Seq<(Seq<char>, u64)>,
                        SelectorError,
                    >(e));
                },
                Ok(rest) => {
                    assert(parse_items_spec(tail, spec_roles) == Ok::<
                        Seq<(Seq<char>, u64)>,
                        SelectorError,
                    >(seq![m] + rest));
                    assert(mv_old + (seq![m] + rest) =~= mappings_view(mappings@) + rest);
                },
            }
        }
    }
    proof {
        assert(s_items.skip(idx as int) =~= Seq::<Seq<char>>::empty());
        assert(parse_items_spec(s_items.skip(idx as int), spec_roles) == Ok::<
            Seq<(Seq<char>, u64)>,
            SelectorError,
        >(Seq::empty()));
        assert(mappings_view(mappings@) + Seq::<(Seq<char>, u64)>::empty() =~= mappings_view(
            mappings@,
        ));
    }
    Ok(ParsedSelector { mappings, description })
}

// ---------------------------------------------------------------------------
// Laws
// ---------------------------------------------------------------------------
/// Item processing never reports an empty body.
proof fn lemma_items_no_empty_body(items: Seq<Seq<char>>, roles: Seq<RoleEntry>)
    ensures
        parse_items_spec(items, roles) != Err::<Seq<(Seq<char>, u64)>, SelectorError>(
            SelectorError::EmptyBody,
        ),
    decreases items.len(),
{
    if items.len() > 0 {
        lemma_items_no_empty_body(items.skip(1), roles);
    }
}

/// A body is rejected as empty exactly when it is empty after trimming.
pub proof fn lemma_empty_body(body: Seq<char>, roles: Seq<RoleEntry>)
    ensures
        (parse_selector_spec(body, roles) == Err::<Seq<(Seq<char>, u64)>, SelectorError>(
            SelectorError::EmptyBody,
        )) <==> trim_spec(body).len() == 0,
{
    if trim_spec(body).len() > 0 {
        lemma_items_no_empty_body(split_spec(trim_spec(body), item_delim()), roles);
    }
}

/// A malformed item aborts the whole selector with `MalformedItem`, whatever
/// comes after it, provided every earlier item is well-formed and resolves.
/// No partial mapping list is produced: the result is the error alone.
pub proof fn lemma_malformed_item_aborts(items: Seq<Seq<char>>, roles: Seq<RoleEntry>, k: int)
    requires
        0 <= k < items.len(),
        parse_item_spec(items[k]) is None,
        forall|j: int|
            0 <= j < k ==> ((#[trigger] parse_item_spec(items[j])) matches Some(p)
                && lookup_role(roles, p.1) is Some),
    ensures
        parse_items_spec(items, roles) == Err::<Seq<(Seq<char>, u64)>, SelectorError>(
            SelectorError::MalformedItem,
        ),
    decreases k,
{
    if k > 0 {
        assert(parse_item_spec(items[0]) matches Some(p) && lookup_role(roles, p.1) is Some);
        assert(items.skip(1)[k - 1] == items[k]);
        assert forall|j: int| 0 <= j < k - 1 implies (#[trigger] parse_item_spec(
            items.skip(1)[j],
        )) matches Some(p) && lookup_role(roles, p.1) is Some by {
            assert(items.skip(1)[j] == items[j + 1]);
        }
        lemma_malformed_item_aborts(items.skip(1), roles, k - 1);
    }
}

/// A role name absent from the guild's cache aborts the whole selector with
/// `UnknownRole`, provided every earlier item is well-formed and resolves.
pub proof fn lemma_unknown_role_aborts(items: Seq<Seq<char>>, roles: Seq<RoleEntry>, k: int)
    requires
        0 <= k < items.len(),
        parse_item_spec(items[k]) matches Some(p) && lookup_role(roles, p.1) is None,
        forall|j: int|
            0 <= j < k ==> ((#[trigger] parse_item_spec(items[j])) matches Some(p)
                && lookup_role(roles, p.1) is Some),
    ensures
        parse_items_spec(items, roles) == Err::<Seq<(Seq<char>, u64)>, SelectorError>(
            SelectorError::UnknownRole,
        ),
    decreases k,
{
    if k > 0 {
        assert(parse_item_spec(items[0]) matches Some(p) && lookup_role(roles, p.1) is Some);
        assert(items.skip(1)[k - 1] == items[k]);
        assert forall|j: int| 0 <= j < k - 1 implies (#[trigger] parse_item_spec(
            items.skip(1)[j],
        )) matches Some(p) && lookup_role(roles, p.1) is Some by {
            assert(items.skip(1)[j] == items[j + 1]);
        }
        lemma_unknown_role_aborts(items.skip(1), roles, k - 1);
    }
}

// ---------------------------------------------------------------------------
// The grammar law: well-formed rendered bodies
// ---------------------------------------------------------------------------
/// A field (an emoji key or a role name) that survives the grammar verbatim:
/// non-empty, free of parentheses and `|`, and with no whitespace at its ends.
pub open spec fn wf_field(s: Seq<char>) -> bool {
    &&& s.len() > 0
    &&& trim_spec(s) == s
    &&& forall|i: int|
        0 <= i < s.len() ==> (#[trigger] s[i]) != '(' && s[i] != ')' && s[i] != '|'
}

pub open spec fn wf_pair(emoji: Seq<char>, name: Seq<char>) -> bool {
    wf_field(emoji) && wf_field(name)
}

/// One item as a moderator writes it: `emoji | name`.
pub open spec fn render_item(emoji: Seq<char>, name: Seq<char>) -> Seq<char> {
    emoji + seq![' ', '|', ' '] + name
}

/// The body after its leading `(`: items joined by `") ("`, closed by `)`.
pub open spec fn render_tail(pairs: Seq<(Seq<char>, Seq<char>)>) -> Seq<char>
    decreases pairs.len(),
{
    if pairs.len() == 0 {
        Seq::empty()
    } else if pairs.len() == 1 {
        render_item(pairs[0].0, pairs[0].1) + seq![')']
    } else {
        render_item(pairs[0].0, pairs[0].1) + item_delim() + render_tail(pairs.skip(1))
    }
}

/// A whole well-formed selector body: `(e1 | n1) (e2 | n2) ... (eN | nN)`.
pub open spec fn render_body(pairs: Seq<(Seq<char>, Seq<char>)>) -> Seq<char> {
    seq!['('] + render_tail(pairs)
}

/// The item strings that splitting the rendered tail on `") ("` leaves: the
/// last keeps its closing `)`, the others are bare items.
pub open spec fn tail_items(pairs: Seq<(Seq<char>, Seq<char>)>) -> Seq<Seq<char>>
    decreases pairs.len(),
{
    if pairs.len() == 0 {
        seq![Seq::<char>::empty()]
    } else if pairs.len() == 1 {
        seq![render_item(pairs[0].0, pairs[0].1) + seq![')']]
    } else {
        seq![render_item(pairs[0].0, pairs[0].1)] + tail_items(pairs.skip(1))
    }
}

/// The id of the first cached role under this name; meaningful only when the
/// name resolves.
pub open spec fn role_id_of(roles: Seq<RoleEntry>, name: Seq<char>) -> u64 {
    match lookup_role(roles, name) {
        Some(re) => re.id,
        None => 0,
    }
}

/// The mappings a pair list resolves to, in order.
pub open spec fn resolved_pairs(
    pairs: Seq<(Seq<char>, Seq<char>)>,
    roles: Seq<RoleEntry>,
) -> Seq<(Seq<char>, u64)> {
    pairs.map_values(|p: (Seq<char>, Seq<char>)| (p.0, role_id_of(roles, p.1)))
}

proof fn lemma_render_item_no_parens(emoji: Seq<char>, name: Seq<char>)
    requires
        wf_pair(emoji, name),
    ensures
        forall|i: int|
            0 <= i < render_item(emoji, name).len() ==> (#[trigger] render_item(emoji, name)[i])
                != '(' && render_item(emoji, name)[i] != ')',
{
    let core = render_item(emoji, name);
    assert forall|i: int| 0 <= i < core.len() implies (#[trigger] core[i]) != '(' && core[i]
        != ')' by {
        if i < emoji.len() {
            assert(core[i] == emoji[i]);
        } else if i < emoji.len() + 3 {
            assert(core[i] == seq![' ', '|', ' '][i - emoji.len()]);
        } else {
            assert(core[i] == name[i - emoji.len() - 3]);
        }
    }
}

/// An item rendered from a well-formed pair parses back to exactly that pair,
/// with or without a leftover parenthesis at either end.
proof fn lemma_parse_item_rendered(
    emoji: Seq<char>,
    name: Seq<char>,
    open_p: bool,
    close_p: bool,
)
    requires
        wf_pair(emoji, name),
    ensures
        parse_item_spec(
            (if open_p {
                seq!['(']
            } else {
                Seq::<char>::empty()
            }) + render_item(emoji, name) + (if close_p {
                seq![')']
            } else {
                Seq::<char>::empty()
            }),
        ) == Some((emoji, name)),
{
    let core = render_item(emoji, name);
    let pre: Seq<char> = if open_p {
        seq!['(']
    } else {
        Seq::empty()
    };
    let post: Seq<char> = if close_p {
        seq![')']
    } else {
        Seq::empty()
    };
    let item = pre + core + post;
    lemma_remove_chars_concat(pre + core, post, paren_chars());
    lemma_remove_chars_concat(pre, core, paren_chars());
    if open_p {
        assert(paren_chars().contains('(')) by {
            assert(paren_chars()[0] == '(');
        }
        assert(pre[0] == '(');
        assert(pre.skip(1) =~= Seq::<char>::empty());
        assert(remove_chars(pre, paren_chars()) == remove_chars(pre.skip(1), paren_chars()));
        assert(remove_chars(pre, paren_chars()) =~= Seq::<char>::empty());
    }
    if close_p {
        assert(paren_chars().contains(')')) by {
            assert(paren_chars()[1] == ')');
        }
        assert(post[0] == ')');
        assert(post.skip(1) =~= Seq::<char>::empty());
        assert(remove_chars(post, paren_chars()) == remove_chars(post.skip(1), paren_chars()));
        assert(remove_chars(post, paren_chars()) =~= Seq::<char>::empty());
    }
    lemma_render_item_no_parens(emoji, name);
    assert forall|i: int| 0 <= i < core.len() implies !paren_chars().contains(
        #[trigger] core[i],
    ) by {
        if paren_chars().contains(core[i]) {
            let j = choose|j: int| 0 <= j < paren_chars().len() && paren_chars()[j] == core[i];
            assert(core[i] == '(' || core[i] == ')');
        }
    }
    lemma_remove_chars_none(core, paren_chars());
    assert(remove_chars(item, paren_chars()) =~= core);
    lemma_trim_stable_parts(emoji);
    lemma_trim_stable_parts(name);
    assert(core[0] == emoji[0]);
    assert(core.last() == name.last());
    lemma_trim_of_clean(core);
    let cleaned = trim_spec(remove_chars(item, paren_chars()));
    assert(cleaned == core);

    let x = emoji + seq![' '];
    let y = seq![' '] + name;
    assert(core =~= x + seq!['|'] + y);
    assert forall|i: int| 0 <= i < x.len() implies (#[trigger] x[i]) != '|' by {
        if i < emoji.len() {
            assert(x[i] == emoji[i]);
        } else {
            assert(x[i] == ' ');
        }
    }
    lemma_split_concat(x, seq!['|'], y);
    assert forall|i: int|
        0 <= i <= y.len() - seq!['|'].len() implies #[trigger] y.subrange(
        i,
        i + seq!['|'].len() as int,
    ) != seq!['|'] by {
        assert(y.subrange(i, i + 1) =~= seq![y[i]]);
        if i == 0 {
            assert(y[0] == ' ');
        } else {
            assert(y[i] == name[i - 1]);
        }
        assert(y.subrange(i, i + 1)[0] != seq!['|'][0]);
    }
    lemma_split_no_match(y, seq!['|']);
    let parts = split_spec(cleaned, seq!['|']);
    assert(parts =~= seq![x, y]);
    lemma_trim_pad(emoji);
    lemma_trim_pad(name);
    assert(trim_spec(parts[0]) == emoji);
    assert(trim_spec(parts[1]) == name);
}

proof fn lemma_tail_items_shape(pairs: Seq<(Seq<char>, Seq<char>)>)
    requires
        pairs.len() >= 1,
    ensures
        tail_items(pairs).len() == pairs.len(),
        forall|k: int|
            0 <= k < pairs.len() - 1 ==> #[trigger] tail_items(pairs)[k] == render_item(
                pairs[k].0,
                pairs[k].1,
            ),
        tail_items(pairs)[pairs.len() - 1] == render_item(
            pairs[pairs.len() - 1].0,
            pairs[pairs.len() - 1].1,
        ) + seq![')'],
    decreases pairs.len(),
{
    if pairs.len() > 1 {
        lemma_tail_items_shape(pairs.skip(1));
        let ti = tail_items(pairs);
        let rest = tail_items(pairs.skip(1));
        assert forall|k: int| 0 <= k < pairs.len() - 1 implies #[trigger] ti[k] == render_item(
            pairs[k].0,
            pairs[k].1,
        ) by {
            if k >= 1 {
                assert(ti[k] == rest[k - 1]);
                assert(pairs.skip(1)[k - 1] == pairs[k]);
            }
        }
        assert(ti[pairs.len() - 1] == rest[pairs.len() - 2]);
        assert(pairs.skip(1)[pairs.len() - 2] == pairs[pairs.len() - 1]);
    }
}

/// Splitting the rendered tail on `") ("` gives back the items.
proof fn lemma_split_tail(pairs: Seq<(Seq<char>, Seq<char>)>)
    requires
        pairs.len() >= 1,
        forall|k: int| 0 <= k < pairs.len() ==> wf_pair((#[trigger] pairs[k]).0, pairs[k].1),
    ensures
        split_spec(render_tail(pairs), item_delim()) == tail_items(pairs),
        render_tail(pairs).len() > 0,
        render_tail(pairs).last() == ')',
    decreases pairs.len(),
{
    let core0 = render_item(pairs[0].0, pairs[0].1);
    assert(wf_pair(pairs[0].0, pairs[0].1));
    lemma_render_item_no_parens(pairs[0].0, pairs[0].1);
    if pairs.len() == 1 {
        let s = render_tail(pairs);
        assert(s == core0 + seq![')']);
        assert forall|i: int|
            0 <= i <= s.len() - item_delim().len() implies #[trigger] s.subrange(
            i,
            i + item_delim().len() as int,
        ) != item_delim() by {
            assert(s.subrange(i, i + item_delim().len() as int)[0] == s[i]);
            assert(i < core0.len());
            assert(s[i] == core0[i]);
            assert(s[i] != ')');
        }
        lemma_split_no_match(s, item_delim());
    } else {
        assert forall|k: int| 0 <= k < pairs.skip(1).len() implies wf_pair(
            (#[trigger] pairs.skip(1)[k]).0,
            pairs.skip(1)[k].1,
        ) by {
            assert(pairs.skip(1)[k] == pairs[k + 1]);
        }
        lemma_split_tail(pairs.skip(1));
        let rt = render_tail(pairs.skip(1));
        let s = render_tail(pairs);
        assert(s == core0 + item_delim() + rt);
        assert forall|i: int| 0 <= i < core0.len() implies (#[trigger] core0[i])
            != item_delim()[0] by {}
        lemma_split_concat(core0, item_delim(), rt);
        assert(split_spec(s, item_delim()) == seq![core0] + tail_items(pairs.skip(1)));
        assert(split_spec(s, item_delim()) =~= tail_items(pairs));
        assert(s.last() == rt.last());
    }
}

proof fn lemma_parse_shaped(
    items: Seq<Seq<char>>,
    pairs: Seq<(Seq<char>, Seq<char>)>,
    roles: Seq<RoleEntry>,
)
    requires
        items.len() == pairs.len(),
        forall|k: int|
            0 <= k < items.len() ==> #[trigger] parse_item_spec(items[k]) == Some(
                (pairs[k].0, pairs[k].1),
            ),
        forall|k: int| 0 <= k < pairs.len() ==> lookup_role(roles, (#[trigger] pairs[k]).1)
            is Some,
    ensures
        parse_items_spec(items, roles) == Ok::<Seq<(Seq<char>, u64)>, SelectorError>(
            resolved_pairs(pairs, roles),
        ),
    decreases items.len(),
{
    if items.len() == 0 {
        assert(resolved_pairs(pairs, roles) =~= Seq::<(Seq<char>, u64)>::empty());
    } else {
        assert(parse_item_spec(items[0]) == Some((pairs[0].0, pairs[0].1)));
        assert(lookup_role(roles, pairs[0].1) is Some);
        assert forall|k: int| 0 <= k < items.skip(1).len() implies #[trigger] parse_item_spec(
            items.skip(1)[k],
        ) == Some((pairs.skip(1)[k].0, pairs.skip(1)[k].1)) by {
            assert(items.skip(1)[k] == items[k + 1]);
            assert(pairs.skip(1)[k] == pairs[k + 1]);
        }
        assert forall|k: int| 0 <= k < pairs.skip(1).len() implies lookup_role(
            roles,
            (#[trigger] pairs.skip(1)[k]).1,
        ) is Some by {
            assert(pairs.skip(1)[k] == pairs[k + 1]);
        }
        lemma_parse_shaped(items.skip(1), pairs.skip(1), roles);
        let role = lookup_role(roles, pairs[0].1);
        assert forall|k: int| 0 <= k < pairs.len() implies (seq![
            (pairs[0].0, role_id_of(roles, pairs[0].1)),
        ] + resolved_pairs(pairs.skip(1), roles))[k] == #[trigger] resolved_pairs(
            pairs,
            roles,
        )[k] by {
            if k >= 1 {
                assert(resolved_pairs(pairs.skip(1), roles)[k - 1] == (
                    pairs.skip(1)[k - 1].0,
                    role_id_of(roles, pairs.skip(1)[k - 1].1),
                ));
                assert(pairs.skip(1)[k - 1] == pairs[k]);
            }
        }
        assert(seq![(pairs[0].0, role_id_of(roles, pairs[0].1))] + resolved_pairs(
            pairs.skip(1),
            roles,
        ) =~= resolved_pairs(pairs, roles));
    }
}

/// The grammar law: a body of N well-formed `(emoji | name)` items joined by
/// `") ("`, each name present in the guild's role cache, parses to exactly N
/// mappings, in input order, each carrying the id of the first cached role of
/// its name.
pub proof fn lemma_selector_grammar(pairs: Seq<(Seq<char>, Seq<char>)>, roles: Seq<RoleEntry>)
    requires
        pairs.len() >= 1,
        forall|k: int| 0 <= k < pairs.len() ==> wf_pair((#[trigger] pairs[k]).0, pairs[k].1),
        forall|k: int| 0 <= k < pairs.len() ==> lookup_role(roles, (#[trigger] pairs[k]).1)
            is Some,
    ensures
        parse_selector_spec(render_body(pairs), roles) == Ok::<
            Seq<(Seq<char>, u64)>,
            SelectorError,
        >(resolved_pairs(pairs, roles)),
        resolved_pairs(pairs, roles).len() == pairs.len(),
        forall|k: int|
            0 <= k < pairs.len() ==> #[trigger] resolved_pairs(pairs, roles)[k] == (
                pairs[k].0,
                role_id_of(roles, pairs[k].1),
            ),
    decreases pairs.len(),
{
    let body = render_body(pairs);
    lemma_split_tail(pairs);
    lemma_tail_items_shape(pairs);
    assert(body[0] == '(');
    assert(body.last() == render_tail(pairs).last());
    lemma_trim_of_clean(body);
    assert forall|i: int| 0 <= i < seq!['('].len() implies (#[trigger] seq!['('][i])
        != item_delim()[0] by {}
    lemma_split_prefix(seq!['('], render_tail(pairs), item_delim());
    let ti = tail_items(pairs);
    let items = split_spec(body, item_delim());
    assert(items == seq![seq!['('] + ti[0]] + ti.skip(1));
    assert(items.len() == ti.len());
    assert forall|k: int| 0 <= k < items.len() implies #[trigger] parse_item_spec(items[k])
        == Some((pairs[k].0, pairs[k].1)) by {
        assert(wf_pair(pairs[k].0, pairs[k].1));
        let core = render_item(pairs[k].0, pairs[k].1);
        if k == 0 {
            if pairs.len() == 1 {
                lemma_parse_item_rendered(pairs[k].0, pairs[k].1, true, true);
                assert(items[0] =~= seq!['('] + core + seq![')']);
            } else {
                lemma_parse_item_rendered(pairs[k].0, pairs[k].1, true, false);
                assert(items[0] =~= seq!['('] + core + Seq::<char>::empty());
            }
        } else {
            assert(items[k] == ti[k]);
            if k < items.len() - 1 {
                lemma_parse_item_rendered(pairs[k].0, pairs[k].1, false, false);
                assert(items[k] =~= Seq::<char>::empty() + core + Seq::<char>::empty());
            } else {
                lemma_parse_item_rendered(pairs[k].0, pairs[k].1, false, true);
                assert(items[k] =~= Seq::<char>::empty() + core + seq![')']);
            }
        }
    }
    lemma_parse_shaped(items, pairs, roles);
    assert(trim_spec(body).len() > 0);
}

} // verus!
