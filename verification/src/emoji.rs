//! Emoji-key normalization: a platform reaction payload (custom emoji with an
//! id, or a unicode emoji) is turned into one canonical string key, usable
//! both as a mapping key and as postable message text, and a key can be read
//! back into a postable reaction. The round trip preserves the key; the
//! `animated` flag of a custom emoji is deliberately not preserved (a key
//! always reads back as non-animated).

use vstd::prelude::*;
use vstd::string::StrSliceExecFns;
use vstd::string::StringExecFns;

use crate::text::all_digits;
use crate::text::chars_of;
use crate::text::dec_str;
use crate::text::is_digit;
use crate::text::lemma_dec_str_digits;
use crate::text::lemma_remove_chars_concat;
use crate::text::lemma_remove_chars_none;
use crate::text::lemma_split_concat;
use crate::text::lemma_split_no_match;
use crate::text::parse_dec;
use crate::text::parse_u64;
use crate::text::remove_chars;
use crate::text::remove_chars_exec;
use crate::text::split_chars;
use crate::text::split_spec;
use crate::text::string_of;
use crate::text::u64_to_dec;

verus! {

/// A reaction's emoji payload, as the platform delivers it: a custom emoji
/// carries an id and (normally) a name; a built-in emoji is a unicode string;
/// any other payload kind is reserved for platform extensions.
#[derive(Clone, Debug, PartialEq)]
pub enum ReactionEmoji {
    Custom { animated: bool, id: u64, name: Option<String> },
    Unicode(String),
    Unknown,
}

/// The mathematical value of a reaction payload.
pub enum EmojiView {
    Custom { animated: bool, id: u64, name: Option<Seq<char>> },
    Unicode(Seq<char>),
    Unknown,
}

impl View for ReactionEmoji {
    type V = EmojiView;

    open spec fn view(&self) -> EmojiView {
        match *self {
            ReactionEmoji::Custom { animated, id, name } => EmojiView::Custom {
                animated: animated,
                id: id,
                name: match name {
                    Some(n) => Some(n@),
                    None => None,
                },
            },
            ReactionEmoji::Unicode(s) => EmojiView::Unicode(s@),
            ReactionEmoji::Unknown => EmojiView::Unknown,
        }
    }
}

/// A custom emoji delivered without a name cannot be normalized; this is an
/// invariant violation of the platform payload, and the one event carrying it
/// is abandoned.
#[derive(Clone, Copy, Debug, PartialEq, Eq, Structural)]
pub enum EmojiError {
    MissingName,
}

/// The canonical key of a custom emoji: `<:{name}:{id}>`.
pub open spec fn custom_key(name: Seq<char>, id: u64) -> Seq<char> {
    seq!['<', ':'] + name + seq![':'] + dec_str(id as int) + seq!['>']
}

/// What normalization yields: the canonical key, no key at all for a reserved
/// payload, or the missing-name error.
pub open spec fn normalize_spec(e: EmojiView) -> Result<Option<Seq<char>>, EmojiError> {
    match e {
        EmojiView::Custom { animated, id, name } => match name {
            Some(n) => Ok(Some(custom_key(n, id))),
            None => Err(EmojiError::MissingName),
        },
        EmojiView::Unicode(s) => Ok(Some(s)),
        EmojiView::Unknown => Ok(None),
    }
}

/// What reading a key back yields: a key not starting with `<` is a unicode
/// reaction; a key starting with `<` is split on `:`, the second piece is the
/// name, and the third piece, with `>` removed, must parse as the id. The
/// reproduced custom reaction is always non-animated.
pub open spec fn denorm_spec(key: Seq<char>) -> Option<EmojiView> {
    if key.len() == 0 || key[0] != '<' {
        Some(EmojiView::Unicode(key))
    } else {
        let parts = split_spec(key, seq![':']);
        if parts.len() < 3 {
            None
        } else {
            match parse_dec(remove_chars(parts[2], seq!['>'])) {
                Some(id) => Some(
                    EmojiView::Custom { animated: false, id: id, name: Some(parts[1]) },
                ),
                None => None,
            }
        }
    }
}

/// The view of a normalization result.
pub open spec fn key_result_view(r: Result<Option<String>, EmojiError>) -> Result<
    Option<Seq<char>>,
    EmojiError,
> {
    match r {
        Ok(Some(s)) => Ok(Some(s@)),
        Ok(None) => Ok(None),
        Err(e) => Err(e),
    }
}

/// The view of a denormalization result.
pub open spec fn emoji_opt_view(r: Option<ReactionEmoji>) -> Option<EmojiView> {
    match r {
        Some(e) => Some(e@),
        None => None,
    }
}

/// Turns a reaction payload into its canonical string key; `Ok(None)` for a
/// reserved payload kind, which callers ignore.
pub fn normalize(e: &ReactionEmoji) -> (r: Result<Option<String>, EmojiError>)
    ensures
        key_result_view(r) == normalize_spec(e@),
{
    match e {
        ReactionEmoji::Custom { animated: _, id, name } => match name {
            Some(n) => {
                let mut s = String::new();
                s.push('<');
                s.push(':');
                s.append(n.as_str());
                s.push(':');
                let ds = u64_to_dec(*id);
                s.append(ds.as_str());
                s.push('>');
                proof {
                    assert(s@ =~= custom_key(n@, *id));
                }
                Ok(Some(s))
            },
            None => Err(EmojiError::MissingName),
        },
        ReactionEmoji::Unicode(u) => Ok(Some(u.clone())),
        ReactionEmoji::Unknown => Ok(None),
    }
}

/// Reads a canonical key back into a postable reaction; `None` when a key
/// starting with `<` is not of the form the normalizer produces.
pub fn denormalize(key: &str) -> (r: Option<ReactionEmoji>)
    ensures
        emoji_opt_view(r) == denorm_spec(key@),
{
    let cs = chars_of(key);
    if cs.len() == 0 || cs[0] != '<' {
        return Some(ReactionEmoji::Unicode(String::from_str(key)));
    }
    let colon: Vec<char> = vec![':'];
    proof {
        assert(colon@ =~= seq![':']);
    }
    let parts = split_chars(&cs, &colon);
    if parts.len() < 3 {
        return None;
    }
    proof {
        assert(parts@[1]@ == split_spec(key@, seq![':'])[1]);
        assert(parts@[2]@ == split_spec(key@, seq![':'])[2]);
    }
    let name = string_of(&parts[1]);
    let gt: Vec<char> = vec!['>'];
    proof {
        assert(gt@ =~= seq!['>']);
    }
    let digits = remove_chars_exec(&parts[2], &gt);
    match parse_u64(&digits) {
        None => None,
        Some(id) => Some(ReactionEmoji::Custom { animated: false, id, name: Some(name) }),
    }
}

/// The decimal digits of an id contain no `:` and no `>`, and parse back to
/// the id.
proof fn lemma_id_digits(id: u64)
    ensures
        all_digits(dec_str(id as int)),
        dec_str(id as int).len() >= 1,
        parse_dec(dec_str(id as int)) == Some(id),
        forall|i: int|
            0 <= i < dec_str(id as int).len() ==> dec_str(id as int)[i] != ':' && dec_str(
                id as int,
            )[i] != '>',
{
    lemma_dec_str_digits(id as int);
    assert(forall|i: int|
        0 <= i < dec_str(id as int).len() ==> is_digit(#[trigger] dec_str(id as int)[i]));
}

/// Round-trip stability of the emoji key: a reaction that yields a key is
/// reproduced, up to the `animated` flag, by reading the key back, and the
/// reproduced reaction yields the very same key. This holds for every custom
/// emoji whose name is present and free of `:`, and for every unicode emoji
/// that does not begin with `<`.
pub proof fn lemma_normalize_round_trip(e: EmojiView)
    requires
        match e {
            EmojiView::Custom { name, .. } => name matches Some(n) && !n.contains(':'),
            EmojiView::Unicode(s) => s.len() == 0 || s[0] != '<',
            EmojiView::Unknown => false,
        },
    ensures
        normalize_spec(e) matches Ok(ko) && ko matches Some(key) && denorm_spec(key) matches Some(
            e2,
        ) && normalize_spec(e2) == Ok::<Option<Seq<char>>, EmojiError>(Some(key)),
{
    match e {
        EmojiView::Custom { animated, id, name } => {
            let n = name->0;
            let ds = dec_str(id as int);
            let key = custom_key(n, id);
            lemma_id_digits(id);
            assert(key[0] == '<');
            let tail2 = ds + seq!['>'];
            let tail1 = n + seq![':'] + tail2;
            assert(key =~= seq!['<'] + seq![':'] + tail1);
            assert forall|i: int| 0 <= i < seq!['<'].len() implies seq!['<'][i] != ':' by {}
            lemma_split_concat(seq!['<'], seq![':'], tail1);
            assert forall|i: int| 0 <= i < n.len() implies n[i] != ':' by {
                if n[i] == ':' {
                    assert(n.contains(':'));
                }
            }
            lemma_split_concat(n, seq![':'], tail2);
            assert forall|i: int|
                0 <= i <= tail2.len() - seq![':'].len() implies #[trigger] tail2.subrange(
                i,
                i + seq![':'].len() as int,
            ) != seq![':'] by {
                assert(tail2.subrange(i, i + 1) =~= seq![tail2[i]]);
                if i < ds.len() {
                    assert(tail2[i] == ds[i]);
                    assert(tail2[i] != ':');
                } else {
                    assert(tail2[i] == '>');
                }
                assert(tail2.subrange(i, i + 1)[0] != seq![':'][0]);
            }
            lemma_split_no_match(tail2, seq![':']);
            let parts = split_spec(key, seq![':']);
            assert(parts =~= seq![seq!['<'], n, tail2]);
            assert(parts.len() == 3);
            assert(parts[1] == n);
            assert(parts[2] == tail2);
            lemma_remove_chars_concat(ds, seq!['>'], seq!['>']);
            assert forall|i: int| 0 <= i < ds.len() implies !seq!['>'].contains(
                #[trigger] ds[i],
            ) by {
                if seq!['>'].contains(ds[i]) {
                    let j = choose|j: int| 0 <= j < 1 && seq!['>'][j] == ds[i];
                    assert(ds[i] == '>');
                }
            }
            lemma_remove_chars_none(ds, seq!['>']);
            assert(seq!['>'].contains(seq!['>'][0]));
            assert(remove_chars(seq!['>'], seq!['>']) == remove_chars(
                seq!['>'].skip(1),
                seq!['>'],
            ));
            assert(seq!['>'].skip(1) =~= Seq::<char>::empty());
            assert(remove_chars(tail2, seq!['>']) =~= ds);
            assert(denorm_spec(key) == Some(
                EmojiView::Custom { animated: false, id: id, name: Some(n) },
            ));
        },
        EmojiView::Unicode(s) => {},
        EmojiView::Unknown => {},
    }
}

} // verus!
