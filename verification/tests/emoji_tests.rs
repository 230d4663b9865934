use reaction_roles::emoji::denormalize;
use reaction_roles::emoji::normalize;
use reaction_roles::emoji::EmojiError;
use reaction_roles::emoji::ReactionEmoji;

#[test]
fn normalize_custom_emoji() {
    let e = ReactionEmoji::Custom { animated: true, id: 123, name: Some(String::from("fire")) };
    let key = normalize(&e).unwrap().unwrap();
    assert_eq!(key, "<:fire:123>");
}

#[test]
fn normalize_unicode_emoji() {
    let e = ReactionEmoji::Unicode(String::from("🔥"));
    let key = normalize(&e).unwrap().unwrap();
    assert_eq!(key, "🔥");
}

#[test]
fn normalize_missing_name_is_an_error() {
    let e = ReactionEmoji::Custom { animated: false, id: 9, name: None };
    assert_eq!(normalize(&e), Err(EmojiError::MissingName));
}

#[test]
fn normalize_unknown_kind_yields_no_key() {
    assert_eq!(normalize(&ReactionEmoji::Unknown), Ok(None));
}

#[test]
fn round_trip_custom_emoji() {
    let e = ReactionEmoji::Custom { animated: true, id: 4096, name: Some(String::from("blob")) };
    let key = normalize(&e).unwrap().unwrap();
    let back = denormalize(&key).unwrap();
    // The animated flag is not preserved; name and id are.
    assert_eq!(
        back,
        ReactionEmoji::Custom { animated: false, id: 4096, name: Some(String::from("blob")) }
    );
    let key2 = normalize(&back).unwrap().unwrap();
    assert_eq!(key2, key);
}

#[test]
fn round_trip_unicode_emoji() {
    let e = ReactionEmoji::Unicode(String::from("🌊"));
    let key = normalize(&e).unwrap().unwrap();
    let back = denormalize(&key).unwrap();
    assert_eq!(back, ReactionEmoji::Unicode(String::from("🌊")));
    let key2 = normalize(&back).unwrap().unwrap();
    assert_eq!(key2, key);
}

#[test]
fn denormalize_plain_text_is_unicode() {
    let back = denormalize("abc").unwrap();
    assert_eq!(back, ReactionEmoji::Unicode(String::from("abc")));
}

#[test]
fn denormalize_malformed_custom_keys() {
    // Too few `:`-separated pieces.
    assert_eq!(denormalize("<bad"), None);
    assert_eq!(denormalize("<:onlyname>"), None);
    // The id piece is not a number.
    assert_eq!(denormalize("<:fire:xyz>"), None);
    assert_eq!(denormalize("<:fire:>"), None);
    // The id piece overflows 64 bits.
    assert_eq!(denormalize("<:fire:18446744073709551616>"), None);
}

#[test]
fn denormalize_largest_id() {
    let back = denormalize("<:x:18446744073709551615>").unwrap();
    assert_eq!(
        back,
        ReactionEmoji::Custom { animated: false, id: u64::MAX, name: Some(String::from("x")) }
    );
}
